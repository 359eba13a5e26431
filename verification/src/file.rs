//! The partition-and-merge controller.
//!
//! Records are partitioned by database number into per-database intermediate
//! buffers, each opened with its database header; the merge step stitches the
//! buffers into one well-formed snapshot. Duplicate keys within one database
//! are detected on their canonical text form and discarded.
use vstd::prelude::*;
use vstd::string::StringExecFns;
use crate::RdbError;
use crate::parser::{DatabaseNumber, RDBSer, Record, decode_key, spec_key, seq_ser, all_wf_records, rdb_valid, magic, lemma_seq_ser_push, part_bytes, parts_bytes, parts_wf, lemma_concat_parts, lemma_databases_run, concat_bufs, lemma_concat_bufs_push};
use crate::text::{hex_chars, parse_u32, parse_u32_ok, after_sign, digits_val};

verus! {

// ---------------------------------------------------------------------------
// Paths of the intermediate and merged files.
// ---------------------------------------------------------------------------

/// The characters of the intermediate file path for database `db` under
/// `dir`: `dir/PART_<db as 8 hex digits>.rdb`.
pub open spec fn part_rdb_path_chars(dir: Seq<char>, db: u32) -> Seq<char> {
    dir + seq!['/', 'P', 'A', 'R', 'T', '_'] + hex_chars(db as nat, 8) + seq!['.', 'r', 'd', 'b']
}

/// The characters of the merged file path under `dir`: `dir/MERGE.rdb`.
pub open spec fn merge_rdb_path_chars(dir: Seq<char>) -> Seq<char> {
    dir + seq!['/', 'M', 'E', 'R', 'G', 'E', '.', 'r', 'd', 'b']
}

/// The path of the intermediate file for database `db_num` under `output_dir`.
pub fn part_rdb_path(output_dir: &String, db_num: u32) -> (r: String)
    ensures
        r@ == part_rdb_path_chars(output_dir@, db_num),
{
    proof {
        reveal_strlit("/PART_");
        reveal_strlit(".rdb");
    }
    let mut s = String::new();
    s.append(output_dir.as_str());
    s.append("/PART_");
    crate::text::append_hex_u32(&mut s, db_num, 8);
    s.append(".rdb");
    assert(s@ =~= part_rdb_path_chars(output_dir@, db_num));
    s
}

/// The path of the merged snapshot under `output_dir`.
pub fn merge_rdb_path(output_dir: &String) -> (r: String)
    ensures
        r@ == merge_rdb_path_chars(output_dir@),
{
    proof {
        reveal_strlit("/MERGE.rdb");
    }
    let mut s = String::new();
    s.append(output_dir.as_str());
    s.append("/MERGE.rdb");
    assert(s@ =~= merge_rdb_path_chars(output_dir@));
    s
}

// ---------------------------------------------------------------------------
// Target-database selection.
// ---------------------------------------------------------------------------

/// The views of a list of strings.
pub open spec fn views_of(strs: Seq<String>) -> Seq<Seq<char>> {
    strs.map_values(|s: String| s@)
}

/// The decimal value named by one database-number argument.
pub open spec fn arg_val(s: Seq<char>) -> u32 {
    digits_val(after_sign(s)) as u32
}

/// The decimal values named by the database-number arguments, in order.
pub open spec fn arg_vals(strs: Seq<String>) -> Seq<u32> {
    views_of(strs).map_values(|s: Seq<char>| arg_val(s))
}

/// Parse the repeated decimal database-number arguments into a duplicate-free
/// list; fails exactly when one of them is not an in-range decimal rendering.
pub fn database_set(strs: &Vec<String>) -> (r: Result<Vec<u32>, RdbError>)
    ensures
        r is Ok <==> (forall|j: int|
            0 <= j < strs@.len() ==> parse_u32_ok(#[trigger] strs@[j]@)),
        r matches Ok(v) ==> (forall|k: int|
            0 <= k < views_of(strs@).len() ==> v@.contains(
                arg_val(#[trigger] views_of(strs@)[k]),
            )),
        r matches Ok(v) ==> (forall|k: int|
            0 <= k < v@.len() ==> arg_vals(strs@).contains(#[trigger] v@[k])),
        r matches Ok(v) ==> (forall|a: int, b: int| 0 <= a < b < v@.len() ==> v@[a] != v@[b]),
        r matches Err(e) ==> e == RdbError::ParseError,
{
    let mut v: Vec<u32> = Vec::new();
    let mut j: usize = 0;
    while j < strs.len()
        invariant
            j <= strs@.len(),
            forall|k: int| 0 <= k < j ==> parse_u32_ok(#[trigger] views_of(strs@)[k]),
            forall|k: int| 0 <= k < j ==> v@.contains(arg_val(#[trigger] views_of(strs@)[k])),
            forall|k: int| 0 <= k < v@.len() ==> arg_vals(strs@).contains(#[trigger] v@[k]),
            forall|a: int, b: int| 0 <= a < b < v@.len() ==> v@[a] != v@[b],
        decreases strs@.len() - j,
    {
        assert(views_of(strs@)[j as int] == strs@[j as int]@);
        let n = match parse_u32(&strs[j]) {
            Ok(n) => n,
            Err(_) => {
                return Err(RdbError::ParseError);
            },
        };
        let ghost oldv = v@;
        if !contains_u32(&v, n) {
            v.push(n);
            proof {
                assert(v@[v@.len() - 1] == n);
                assert(v@.contains(n));
                assert(arg_vals(strs@)[j as int] == n);
                assert(arg_vals(strs@).contains(n));
                assert forall|x: u32| oldv.contains(x) implies v@.contains(x) by {
                    let i = choose|i: int| 0 <= i < oldv.len() && oldv[i] == x;
                    assert(v@[i] == x);
                }
                assert forall|a: int| 0 <= a < oldv.len() implies oldv[a] != n by {
                    if oldv[a] == n {
                        assert(oldv.contains(n));
                    }
                }
            }
        }
        j = j + 1;
    }
    assert forall|k: int| 0 <= k < strs@.len() implies parse_u32_ok(#[trigger] strs@[k]@) by {
        assert(views_of(strs@)[k] == strs@[k]@);
        assert(parse_u32_ok(views_of(strs@)[k]));
    }
    Ok(v)
}

/// Whether `v` holds `n`.
fn contains_u32(v: &Vec<u32>, n: u32) -> (r: bool)
    ensures
        r == v@.contains(n),
{
    let mut k: usize = 0;
    while k < v.len()
        invariant
            k <= v@.len(),
            forall|m: int| 0 <= m < k ==> v@[m] != n,
        decreases v@.len() - k,
    {
        if v[k] == n {
            return true;
        }
        k = k + 1;
    }
    false
}

/// Whether records of database `num` are exported: all databases are when no
/// target was named, else exactly the named ones.
pub fn db_selected(target: &Vec<u32>, num: u32) -> (r: bool)
    ensures
        r == (target@.len() == 0 || target@.contains(num)),
{
    target.len() == 0 || contains_u32(target, num)
}

// ---------------------------------------------------------------------------
// The partition store.
// ---------------------------------------------------------------------------

/// Whether the canonical key `kc` is among the seen keys `ks`.
pub open spec fn key_in(ks: Seq<Seq<char>>, kc: Seq<char>) -> bool {
    exists|j: int| 0 <= j < ks.len() && ks[j] == kc
}

/// The index of `n` in the duplicate-free `nums`.
pub open spec fn db_index(nums: Seq<u32>, n: u32) -> int {
    choose|i: int| 0 <= i < nums.len() && nums[i] == n
}

/// The per-database intermediate buffers and seen-key sets, in first-write
/// order of the database numbers.
pub struct PartRDB {
    pub check_duplication: bool,
    pub output_dir: String,
    pub nums: Vec<u32>,
    pub bufs: Vec<Vec<u8>>,
    pub keys: Vec<Vec<String>>,
    pub parts_open: bool,
    /// The parse trees whose serializations fill `bufs`, for reasoning only.
    pub parts: Ghost<Seq<(DatabaseNumber, Seq<Record>)>>,
}

impl PartRDB {
    /// The intermediate buffer contents, by database in first-write order.
    pub open spec fn bufs_view(self) -> Seq<Seq<u8>> {
        self.bufs@.map_values(|b: Vec<u8>| b@)
    }

    /// The seen canonical keys, by database in first-write order.
    pub open spec fn keys_view(self) -> Seq<Seq<Seq<char>>> {
        self.keys@.map_values(|ks: Vec<String>| views_of(ks@))
    }

    /// One buffer and one key set per database number, numbers distinct, and
    /// each buffer holding exactly the image of its header and records.
    pub open spec fn wf(self) -> bool {
        &&& self.nums@.len() == self.bufs@.len()
        &&& self.nums@.len() == self.keys@.len()
        &&& self.nums@.len() == self.parts@.len()
        &&& forall|a: int, b: int| 0 <= a < b < self.nums@.len() ==> self.nums@[a] != self.nums@[b]
        &&& forall|k: int|
            0 <= k < self.parts@.len() ==> {
                &&& (#[trigger] self.parts@[k]).0.wf()
                &&& self.parts@[k].0.1 == self.nums@[k]
                &&& all_wf_records(self.parts@[k].1)
                &&& self.bufs_view()[k] == part_bytes(self.parts@[k])
            }
    }

    /// Both states hold the same data.
    pub open spec fn state_eq(self, other: PartRDB) -> bool {
        &&& self.check_duplication == other.check_duplication
        &&& self.output_dir@ == other.output_dir@
        &&& self.parts_open == other.parts_open
        &&& self.nums@ == other.nums@
        &&& self.bufs_view() == other.bufs_view()
        &&& self.keys_view() == other.keys_view()
    }

    /// Open a fresh store over `output_dir`, with no buffers and no recorded
    /// keys. `output_dir_exists` reports whether the path names an existing
    /// directory; a missing directory is refused.
    pub fn new(check_duplication: bool, output_dir: String, output_dir_exists: bool) -> (r: Result<
        PartRDB,
        RdbError,
    >)
        ensures
            !output_dir_exists ==> (r matches Err(e) && e == RdbError::DirectoryMissing),
            output_dir_exists ==> (r matches Ok(s) && {
                &&& s.wf()
                &&& s.check_duplication == check_duplication
                &&& s.output_dir@ == output_dir@
                &&& s.parts_open
                &&& s.nums@.len() == 0
                &&& s.bufs_view().len() == 0
                &&& s.keys_view().len() == 0
            }),
    {
        if !output_dir_exists {
            return Err(RdbError::DirectoryMissing);
        }
        Ok(
            PartRDB {
                check_duplication,
                output_dir,
                nums: Vec::new(),
                bufs: Vec::new(),
                keys: Vec::new(),
                parts_open: true,
                parts: Ghost(Seq::empty()),
            },
        )
    }

    /// Release the intermediate buffers for writing; the seen keys and the
    /// buffer contents are retained for `merge`.
    pub fn close_part_files(&mut self)
        ensures
            final(self).parts_open == false,
            final(self).check_duplication == old(self).check_duplication,
            final(self).output_dir@ == old(self).output_dir@,
            final(self).nums@ == old(self).nums@,
            final(self).bufs_view() == old(self).bufs_view(),
            final(self).keys_view() == old(self).keys_view(),
            final(self).parts == old(self).parts,
            old(self).wf() ==> final(self).wf(),
    {
        self.parts_open = false;
    }

    /// Partition one record into the intermediate buffer of its database.
    ///
    /// The first record of a database opens its buffer with the database
    /// header. With duplicate-checking on, the record's key is decoded to its
    /// canonical text first: a record whose key was already seen in this
    /// database is discarded (`Ok(false)`), a key that does not decode aborts
    /// the write, and a fresh key is recorded and the record serialized
    /// (`Ok(true)`). With duplicate-checking off every record is serialized.
    pub fn write(&mut self, db_num: DatabaseNumber, record: &Record) -> (r: Result<bool, RdbError>)
        requires
            old(self).wf(),
            old(self).parts_open,
            db_num.wf(),
            record.wf(),
        ensures
            final(self).wf(),
            final(self).check_duplication == old(self).check_duplication,
            final(self).output_dir@ == old(self).output_dir@,
            final(self).parts_open,
            (r is Err) == (old(self).check_duplication && spec_key(record.0) is None),
            r matches Err(e) ==> e == RdbError::DecodeError && final(self).state_eq(*old(self)),
            (r == Ok::<bool, RdbError>(false)) == (old(self).check_duplication && (spec_key(
                record.0,
            ) matches Some(kc) && old(self).nums@.contains(db_num.1) && key_in(
                old(self).keys_view()[db_index(old(self).nums@, db_num.1)],
                kc,
            ))),
            r == Ok::<bool, RdbError>(false) ==> final(self).state_eq(*old(self)),
            (r == Ok::<bool, RdbError>(true) && old(self).nums@.contains(db_num.1)) ==> ({
                let i = db_index(old(self).nums@, db_num.1);
                &&& final(self).nums@ == old(self).nums@
                &&& final(self).bufs_view() == old(self).bufs_view().update(
                    i,
                    old(self).bufs_view()[i] + record.spec_ser(),
                )
                &&& final(self).keys_view() == (if old(self).check_duplication {
                    old(self).keys_view().update(
                        i,
                        old(self).keys_view()[i].push(spec_key(record.0).unwrap()),
                    )
                } else {
                    old(self).keys_view()
                })
            }),
            (r == Ok::<bool, RdbError>(true) && !old(self).nums@.contains(db_num.1)) ==> ({
                &&& final(self).nums@ == old(self).nums@.push(db_num.1)
                &&& final(self).bufs_view() == old(self).bufs_view().push(
                    db_num.spec_ser() + record.spec_ser(),
                )
                &&& final(self).keys_view() == old(self).keys_view().push(
                    if old(self).check_duplication {
                        seq![spec_key(record.0).unwrap()]
                    } else {
                        Seq::empty()
                    },
                )
            }),
    {
        let num = db_num.1;
        let key: Option<String> = if self.check_duplication {
            match decode_key(&record.0) {
                Ok(k) => Some(k),
                Err(e) => {
                    return Err(e);
                },
            }
        } else {
            None
        };
        match find_num(&self.nums, num) {
            Some(i) => {
                proof {
                    assert(self.nums@[i as int] == num);
                    assert(self.nums@.contains(num));
                    let gi = db_index(self.nums@, num);
                    assert(0 <= gi < self.nums@.len() && self.nums@[gi] == num);
                    assert(gi == i as int);
                }
                match &key {
                    Some(k) => {
                        if key_seen(&self.keys[i], k) {
                            assert(self.keys_view()[i as int] == views_of(self.keys@[i as int]@));
                            return Ok(false);
                        }
                    },
                    None => {},
                }
                let ghost old_bufs = self.bufs_view();
                let ghost old_keys = self.keys_view();
                let ghost old_parts = self.parts@;
                let mut b = self.bufs.remove(i);
                record.ser(&mut b);
                self.bufs.insert(i, b);
                self.parts = Ghost(
                    self.parts@.update(
                        i as int,
                        (self.parts@[i as int].0, self.parts@[i as int].1.push(*record)),
                    ),
                );
                proof {
                    assert(self.bufs_view() =~= old_bufs.update(
                        i as int,
                        old_bufs[i as int] + record.spec_ser(),
                    ));
                    lemma_seq_ser_push(old_parts[i as int].1, *record);
                    assert(part_bytes(self.parts@[i as int]) =~= old_bufs[i as int]
                        + record.spec_ser());
                }
                match key {
                    Some(k) => {
                        let ghost kc = k@;
                        let mut ks = self.keys.remove(i);
                        ks.push(k);
                        self.keys.insert(i, ks);
                        proof {
                            assert(views_of(self.keys@[i as int]@) =~= old_keys[i as int].push(kc));
                            assert(self.keys_view() =~= old_keys.update(
                                i as int,
                                old_keys[i as int].push(kc),
                            ));
                        }
                    },
                    None => {},
                }
                Ok(true)
            },
            None => {
                let ghost old_bufs = self.bufs_view();
                let ghost old_keys = self.keys_view();
                let mut b: Vec<u8> = Vec::new();
                db_num.ser(&mut b);
                record.ser(&mut b);
                self.nums.push(num);
                self.bufs.push(b);
                let mut ks: Vec<String> = Vec::new();
                let ghost kv = match key {
                    Option::Some(ref k) => seq![k@],
                    Option::None => Seq::empty(),
                };
                match key {
                    Some(k) => {
                        ks.push(k);
                    },
                    None => {},
                }
                self.keys.push(ks);
                self.parts = Ghost(self.parts@.push((db_num, seq![*record])));
                proof {
                    assert(self.bufs_view() =~= old_bufs.push(
                        db_num.spec_ser() + record.spec_ser(),
                    ));
                    assert(seq![*record].drop_first() =~= Seq::<Record>::empty());
                    assert(seq_ser(Seq::<Record>::empty()) == Seq::<u8>::empty());
                    assert(seq_ser(seq![*record]) =~= record.spec_ser() + Seq::<u8>::empty());
                    assert(part_bytes((db_num, seq![*record])) =~= db_num.spec_ser()
                        + record.spec_ser());
                    assert(views_of(ks@) =~= kv);
                    assert(self.keys_view() =~= old_keys.push(kv));
                    assert forall|a: int, b2: int|
                        0 <= a < b2 < self.nums@.len() implies self.nums@[a] != self.nums@[b2] by {
                        if b2 == self.nums@.len() - 1 {
                            assert(!old(self).nums@.contains(num));
                            if old(self).nums@[a] == num {
                                assert(old(self).nums@.contains(num));
                            }
                        }
                    }
                }
                Ok(true)
            },
        }
    }

    /// Stitch the intermediate buffers into one snapshot: the header, each
    /// database's buffer in first-write order, the terminator, and a zeroed
    /// checksum.
    pub fn merge(&self) -> (r: Vec<u8>)
        ensures
            r@ == merge_header() + concat_bufs(self.bufs_view()) + merge_trailer(),
    {
        let mut out: Vec<u8> = Vec::new();
        out.push(0x52);
        out.push(0x45);
        out.push(0x44);
        out.push(0x49);
        out.push(0x53);
        out.push(0x30);
        out.push(0x30);
        out.push(0x30);
        out.push(0x36);
        assert(out@ =~= merge_header());
        let mut k: usize = 0;
        while k < self.bufs.len()
            invariant
                k <= self.bufs@.len(),
                out@ == merge_header() + concat_bufs(self.bufs_view().take(k as int)),
            decreases self.bufs@.len() - k,
        {
            crate::parser::write_bytes(&mut out, &self.bufs[k]);
            proof {
                assert(self.bufs@[k as int]@ == self.bufs_view()[k as int]);
                assert(self.bufs_view().take(k + 1) =~= self.bufs_view().take(k as int).push(
                    self.bufs_view()[k as int],
                ));
                lemma_concat_bufs_push(
                    self.bufs_view().take(k as int),
                    self.bufs_view()[k as int],
                );
            }
            k = k + 1;
        }
        assert(self.bufs_view().take(self.bufs@.len() as int) =~= self.bufs_view());
        out.push(0xff);
        out.push(0x00);
        out.push(0x00);
        out.push(0x00);
        out.push(0x00);
        out.push(0x00);
        out.push(0x00);
        out.push(0x00);
        out.push(0x00);
        assert(out@ =~= merge_header() + concat_bufs(self.bufs_view()) + merge_trailer());
        out
    }
}

/// The nine leading bytes of every merged snapshot: the magic and the
/// version this tool writes, `REDIS0006`.
pub open spec fn merge_header() -> Seq<u8> {
    seq![0x52u8, 0x45u8, 0x44u8, 0x49u8, 0x53u8, 0x30u8, 0x30u8, 0x30u8, 0x36u8]
}

/// The nine trailing bytes of every merged snapshot: the end-of-snapshot
/// marker and a zeroed checksum.
pub open spec fn merge_trailer() -> Seq<u8> {
    seq![0xffu8, 0u8, 0u8, 0u8, 0u8, 0u8, 0u8, 0u8, 0u8]
}

/// What `merge` returns of any well-formed store is itself a well-formed
/// snapshot: the parser accepts it in full.
pub proof fn lemma_merge_output_valid(st: PartRDB)
    requires
        st.wf(),
    ensures
        rdb_valid(merge_header() + concat_bufs(st.bufs_view()) + merge_trailer()),
{
    let s = merge_header() + concat_bufs(st.bufs_view()) + merge_trailer();
    assert(forall|k: int|
        0 <= k < st.bufs_view().len() ==> st.bufs_view()[k] == part_bytes(#[trigger] st.parts@[k]));
    lemma_concat_parts(st.bufs_view(), st.parts@);
    let pb = parts_bytes(st.parts@);
    let n = pb.len() as int;
    assert(s.len() == 9 + n + 9);
    assert(s.subrange(0, 5) =~= magic());
    assert(s.subrange(9, 9 + n) =~= pb);
    assert(s[9 + n] == 0xff);
    assert(parts_wf(st.parts@));
    lemma_databases_run(st.parts@, s, 9);
}

/// Whether `key` is among the seen keys `ks`.
fn key_seen(ks: &Vec<String>, key: &String) -> (r: bool)
    ensures
        r == key_in(views_of(ks@), key@),
{
    let ghost kv = views_of(ks@);
    let mut j: usize = 0;
    while j < ks.len()
        invariant
            j <= ks@.len(),
            kv == views_of(ks@),
            forall|m: int| 0 <= m < j ==> kv[m] != key@,
        decreases ks@.len() - j,
    {
        if ks[j].eq(key) {
            assert(kv[j as int] == key@);
            return true;
        }
        j = j + 1;
    }
    false
}

/// Find `n` among the database numbers seen so far.
fn find_num(nums: &Vec<u32>, n: u32) -> (r: Option<usize>)
    ensures
        r matches Some(i) ==> i < nums@.len() && nums@[i as int] == n,
        r is None ==> !nums@.contains(n),
{
    let mut k: usize = 0;
    while k < nums.len()
        invariant
            k <= nums@.len(),
            forall|m: int| 0 <= m < k ==> nums@[m] != n,
        decreases nums@.len() - k,
    {
        if nums[k] == n {
            return Some(k);
        }
        k = k + 1;
    }
    None
}

} // verus!
