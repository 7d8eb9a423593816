//! The store: one log and one index per field, behind insert and get.
use vstd::prelude::*;

use crate::codec::{enc_val, lemma_enc_injective};
use crate::index_file::{
    closed_layout, flush_fits, lemma_strict_len, index_header, lemma_closed_index_valid, lemma_index_reopen, strictly_ascending,
    valid_index_image, IndexFile,
};
use crate::log_file::{add_fits, all_decode, appended, log_header, unclean, LogFile};
use crate::log_value::{wf_val, LogValue, Val};
use crate::record_codec::{parse_record, record_view, wf_record, Record};
use crate::record_error::RecordError;
use crate::record_file::read_spec;

verus! {

/// Whether record `r` holds value `v` in field `n`.
pub open spec fn has_pair(r: Seq<(Seq<char>, Val)>, n: Seq<char>, v: Val) -> bool {
    exists|i: int| 0 <= i < r.len() && #[trigger] r[i] == (n, v)
}

/// A log file and the indexes of the fields seen so far.
pub struct DataManager {
    pub log_file: LogFile,
    pub indices: Vec<IndexFile>,
}

impl DataManager {
    pub open spec fn wf(&self) -> bool {
        &&& self.log_file.wf()
        &&& forall|i: int| 0 <= i < self.indices@.len() ==> (#[trigger] self.indices@[i]).wf()
        &&& forall|i: int, j: int|
            0 <= i < j < self.indices@.len() ==> (#[trigger] self.indices@[i]).index_name@
                != (#[trigger] self.indices@[j]).index_name@
    }

    pub open spec fn has_index(&self, field: Seq<char>) -> bool {
        exists|i: int| 0 <= i < self.indices@.len() && (#[trigger] self.indices@[i]).index_name@ == field
    }

    pub open spec fn index_for(&self, field: Seq<char>) -> IndexFile {
        self.indices@[choose|i: int|
            0 <= i < self.indices@.len() && (#[trigger] self.indices@[i]).index_name@ == field]
    }

    /// The offsets indexed under `v` in field `field`.
    pub open spec fn offsets_of(&self, field: Seq<char>, v: Val) -> Set<u64> {
        if self.has_index(field) {
            self.index_for(field).offsets(v)
        } else {
            Set::empty()
        }
    }

    /// The log record at `o` holds `v` in field `n`.
    pub open spec fn holds_at(&self, n: Seq<char>, v: Val, o: u64) -> bool {
        exists|j: int|
            0 <= j < self.log_file.rec_file.records@.len() && o == self.log_file.rec_file.offset_of(j)
                && (#[trigger] parse_record(self.log_file.rec_file.records@[j])) is Some && has_pair(
                parse_record(self.log_file.rec_file.records@[j])->Some_0,
                n,
                v,
            )
    }

    /// Every record decodes, and each index holds exactly the offsets of the
    /// records with its field and value.
    #[verifier::opaque]
    pub open spec fn consistent(&self) -> bool {
        &&& all_decode(self.log_file.rec_file.records@)
        &&& forall|n: Seq<char>, v: Val, o: u64|
            wf_val(v) ==> (#[trigger] self.offsets_of(n, v).contains(o) <==> self.holds_at(n, v, o))
    }
}

proof fn lemma_index_for(dm: &DataManager, i: int)
    requires
        dm.wf(),
        0 <= i < dm.indices@.len(),
    ensures
        dm.has_index(dm.indices@[i].index_name@),
        dm.index_for(dm.indices@[i].index_name@) == dm.indices@[i],
{
    let n = dm.indices@[i].index_name@;
    assert(dm.indices@[i].index_name@ == n);
    let j = choose|j: int| 0 <= j < dm.indices@.len() && (#[trigger] dm.indices@[j]).index_name@ == n;
    if j != i {
        if j < i {
            assert(dm.indices@[j].index_name@ != dm.indices@[i].index_name@);
        } else {
            assert(dm.indices@[i].index_name@ != dm.indices@[j].index_name@);
        }
    }
}

impl DataManager {
    /// Opens a store from the image of its log (empty for a new store) and
    /// the name and image of each index file found beside it. Two images
    /// with one name are refused as `Corrupt`.
    pub fn new(log_image: Vec<u8>, index_images: Vec<(String, Vec<u8>)>) -> (r: Result<
        DataManager,
        RecordError,
    >)
        ensures
            log_image@.len() == 0 && index_images@.len() == 0 ==> (r matches Ok(dm) && dm.consistent()
                && dm.indices@.len() == 0),
            images_open(log_image@, index_images@) ==> r is Ok,
            r matches Ok(dm) ==> dm.wf() && opened_from(dm, log_image@, index_images@),
    {
        let ghost li = log_image@;
        let ghost orig = index_images@;
        let log_file = match LogFile::new(log_image) {
            Ok(f) => f,
            Err(e) => {
                proof {
                    lemma_log_not_open(li, orig);
                }
                return Err(e);
            },
        };
        assert(li.len() == 0 ==> log_file.rec_file.records@.len() == 0);
        let mut indices: Vec<IndexFile> = Vec::new();
        let mut images = index_images;
        assert(images@ =~= orig.subrange(0, orig.len() as int));
        while images.len() > 0
            invariant
                forall|i: int| 0 <= i < indices@.len() ==> (#[trigger] indices@[i]).wf(),
                forall|i: int, j: int|
                    0 <= i < j < indices@.len() ==> (#[trigger] indices@[i]).index_name@
                        != (#[trigger] indices@[j]).index_name@,
                indices@.len() + images@.len() == orig.len(),
                images@ == orig.subrange(0, images@.len() as int),
                orig == index_images@,
                li == log_image@,
                log_file.wf(),
                li.len() == 0 ==> log_file.rec_file.records@.len() == 0,
                crate::record_file::open_spec(li, log_header()) == Ok::<(Seq<Seq<u8>>, int), RecordError>(
                    (log_file.rec_file.records@, log_file.rec_file.end_of_file as int),
                ),
                forall|i: int|
                    0 <= i < indices@.len() ==> #[trigger] index_from(indices@[i], orig[orig.len() - 1 - i]),
            decreases images@.len(),
        {
            let ghost m = images@.len() - 1;
            let (name, image) = images.pop().unwrap();
            proof {
                assert(orig[m] == orig.subrange(0, m + 1)[m]);
                assert(images@ =~= orig.subrange(0, m));
            }
            let mut q: usize = 0;
            let mut dup = false;
            while q < indices.len()
                invariant_except_break
                    !dup,
                invariant
                    0 <= q <= indices@.len(),
                    forall|a: int| 0 <= a < q ==> (#[trigger] indices@[a]).index_name@ != name@,
                ensures
                    !dup ==> forall|a: int| 0 <= a < indices@.len() ==> (#[trigger] indices@[a]).index_name@ != name@,
                    dup ==> q < indices@.len() && indices@[q as int].index_name@ == name@,
                decreases indices@.len() - q,
            {
                if indices[q].index_name == name {
                    dup = true;
                    break;
                }
                q = q + 1;
            }
            if dup {
                proof {
                    assert(index_from(indices@[q as int], orig[orig.len() - 1 - q]));
                    lemma_dup_not_open(li, orig, orig.len() - 1 - q, m, indices@[q as int]);
                }
                return Err(RecordError::Corrupt);
            }
            let ix = match IndexFile::new(image, name) {
                Ok(ix) => ix,
                Err(e) => {
                    proof {
                        lemma_index_not_open(li, orig, m);
                    }
                    return Err(e);
                },
            };
            proof {
                reveal(index_from);
            }
            let ghost before = indices@;
            indices.push(ix);
            proof {
                assert(index_from(ix, orig[m]));
                assert forall|i: int| 0 <= i < indices@.len() implies #[trigger] index_from(
                    indices@[i],
                    orig[orig.len() - 1 - i],
                ) by {
                    if i < before.len() {
                        assert(indices@[i] == before[i]);
                    }
                }
                assert forall|i: int| 0 <= i < indices@.len() implies (#[trigger] indices@[i]).wf() by {
                    if i < before.len() {
                        assert(indices@[i] == before[i]);
                    }
                }
                assert forall|i: int, j: int|
                    0 <= i < j < indices@.len() implies (#[trigger] indices@[i]).index_name@
                        != (#[trigger] indices@[j]).index_name@ by {
                    assert(indices@[i] == before[i]);
                    if j < before.len() {
                        assert(indices@[j] == before[j]);
                    }
                }
            }
        }
        let dm = DataManager { log_file, indices };
        proof {
            reveal(DataManager::consistent);
            if dm.log_file.rec_file.records@.len() == 0 && dm.indices@.len() == 0 {
                assert forall|n: Seq<char>, v: Val, o: u64| wf_val(v) implies (
                #[trigger] dm.offsets_of(n, v).contains(o) <==> dm.holds_at(n, v, o)) by {}
            }
        }
        Ok(dm)
    }
}

/// Index `ix` was opened from the named image `img`: same name, nothing
/// pending, and the records of the image.
#[verifier::opaque]
pub open spec fn index_from(ix: IndexFile, img: (String, Vec<u8>)) -> bool {
    &&& ix.index_name@ == img.0@
    &&& ix.pending().dom() == Set::<Seq<u8>>::empty()
    &&& crate::record_file::open_spec(img.1@, index_header()) == Ok::<(Seq<Seq<u8>>, int), RecordError>(
        (ix.rec_file.records@, ix.rec_file.end_of_file as int),
    )
}

/// `dm` was opened from these images: the log's records are those of its
/// image, and index `i` comes from the `i`-th image counted from the last.
pub open spec fn opened_from(dm: DataManager, log_image: Seq<u8>, images: Seq<(String, Vec<u8>)>) -> bool {
    &&& crate::record_file::open_spec(log_image, log_header()) == Ok::<(Seq<Seq<u8>>, int), RecordError>(
        (dm.log_file.rec_file.records@, dm.log_file.rec_file.end_of_file as int),
    )
    &&& dm.indices@.len() == images.len()
    &&& forall|i: int|
        0 <= i < dm.indices@.len() ==> #[trigger] index_from(dm.indices@[i], images[images.len() - 1 - i])
}

/// The images open: the log's, checked if it was not cleanly closed, and
/// each index's, under distinct names.
#[verifier::opaque]
pub open spec fn images_open(log_image: Seq<u8>, images: Seq<(String, Vec<u8>)>) -> bool {
    &&& crate::record_file::open_spec(log_image, log_header()) is Ok
    &&& (unclean(log_image) ==> all_decode(
        crate::record_file::open_spec(log_image, log_header())->Ok_0.0,
    ))
    &&& forall|k: int| 0 <= k < images.len() ==> valid_index_image(#[trigger] images[k].1@)
    &&& forall|a: int, b: int|
        0 <= a < b < images.len() ==> (#[trigger] images[a]).0@ != (#[trigger] images[b]).0@
}

proof fn lemma_log_not_open(li: Seq<u8>, orig: Seq<(String, Vec<u8>)>)
    requires
        crate::record_file::open_spec(li, log_header()) is Err || (unclean(li) && (
        crate::record_file::open_spec(li, log_header()) matches Ok((recs, _)) && !all_decode(recs))),
    ensures
        !images_open(li, orig),
{
    reveal(images_open);
}

proof fn lemma_index_not_open(li: Seq<u8>, orig: Seq<(String, Vec<u8>)>, m: int)
    requires
        0 <= m < orig.len(),
        !valid_index_image(orig[m].1@),
    ensures
        !images_open(li, orig),
{
    reveal(images_open);
}

proof fn lemma_dup_not_open(li: Seq<u8>, orig: Seq<(String, Vec<u8>)>, k: int, m: int, ix: IndexFile)
    requires
        0 <= m < k < orig.len(),
        index_from(ix, orig[k]),
        ix.index_name@ == orig[m].0@,
    ensures
        !images_open(li, orig),
{
    reveal(images_open);
    reveal(index_from);
    assert(orig[m].0@ == orig[k].0@);
}

proof fn lemma_offsets_after_add(a: IndexFile, b: IndexFile, val: Val, off: u64, w: Val)
    requires
        a.wf(),
        wf_val(val),
        wf_val(w),
        b.entries == a.entries,
        b.pending() == a.pending().insert(enc_val(val), a.mem_list(val).push(off)),
    ensures
        b.offsets(w) == if w == val {
            a.offsets(w).insert(off)
        } else {
            a.offsets(w)
        },
{
    if w == val {
        assert(b.mem_list(w) == a.mem_list(val).push(off));
        let s0 = a.mem_list(w);
        let t = s0.push(off);
        assert forall|x: u64| t.contains(x) <==> (s0.contains(x) || x == off) by {
            if t.contains(x) {
                let k = choose|k: int| 0 <= k < t.len() && t[k] == x;
                if k < s0.len() {
                    assert(s0[k] == x);
                }
            }
            if s0.contains(x) {
                let k = choose|k: int| 0 <= k < s0.len() && s0[k] == x;
                assert(t[k] == x);
            }
            if x == off {
                assert(t[s0.len() as int] == x);
            }
        }
        assert(b.mem_list(w).to_set() =~= a.mem_list(w).to_set().insert(off));
        assert(b.offsets(w) =~= a.offsets(w).insert(off));
    } else {
        if enc_val(w) == enc_val(val) {
            lemma_enc_injective(w, val);
        }
        assert(b.mem_list(w) == a.mem_list(w));
    }
}

proof fn lemma_offsets_of_update(d1: DataManager, d2: DataManager, idx: int, ix: IndexFile)
    requires
        d1.wf(),
        0 <= idx < d1.indices@.len(),
        d2.indices@ == d1.indices@.update(idx, ix),
        d2.log_file == d1.log_file,
        ix.index_name@ == d1.indices@[idx].index_name@,
        ix.wf(),
    ensures
        d2.wf(),
        forall|n: Seq<char>, v: Val|
            #[trigger] d2.offsets_of(n, v) == if n == ix.index_name@ {
                ix.offsets(v)
            } else {
                d1.offsets_of(n, v)
            },
{
    assert forall|i: int, j: int|
        0 <= i < j < d2.indices@.len() implies (#[trigger] d2.indices@[i]).index_name@
            != (#[trigger] d2.indices@[j]).index_name@ by {
        assert(d1.indices@[i].index_name@ != d1.indices@[j].index_name@);
    }
    lemma_index_for(&d2, idx);
    assert forall|n: Seq<char>, v: Val|
        #[trigger] d2.offsets_of(n, v) == if n == ix.index_name@ {
            ix.offsets(v)
        } else {
            d1.offsets_of(n, v)
        } by {
        if n != ix.index_name@ {
            if d1.has_index(n) {
                let i = choose|i: int| 0 <= i < d1.indices@.len() && (#[trigger] d1.indices@[i]).index_name@ == n;
                lemma_index_for(&d1, i);
                lemma_index_for(&d2, i);
            } else {
                if d2.has_index(n) {
                    let i = choose|i: int| 0 <= i < d2.indices@.len() && (#[trigger] d2.indices@[i]).index_name@ == n;
                    assert(d1.indices@[i].index_name@ == n);
                }
            }
        }
    }
}

proof fn lemma_offsets_of_push(d1: DataManager, d2: DataManager, ix: IndexFile)
    requires
        d1.wf(),
        d2.indices@ == d1.indices@.push(ix),
        d2.log_file == d1.log_file,
        ix.wf(),
        !d1.has_index(ix.index_name@),
        forall|v: Val| #[trigger] ix.offsets(v) == Set::<u64>::empty(),
    ensures
        d2.wf(),
        forall|n: Seq<char>, v: Val| #[trigger] d2.offsets_of(n, v) == d1.offsets_of(n, v),
{
    let last = d1.indices@.len() as int;
    assert forall|i: int, j: int|
        0 <= i < j < d2.indices@.len() implies (#[trigger] d2.indices@[i]).index_name@
            != (#[trigger] d2.indices@[j]).index_name@ by {
        if j == last {
            assert(d1.indices@[i].index_name@ != ix.index_name@);
        } else {
            assert(d1.indices@[i].index_name@ != d1.indices@[j].index_name@);
        }
    }
    assert forall|i: int| 0 <= i < d2.indices@.len() implies (#[trigger] d2.indices@[i]).wf() by {
        if i < last {
            assert(d2.indices@[i] == d1.indices@[i]);
        }
    }
    assert forall|n: Seq<char>, v: Val| #[trigger] d2.offsets_of(n, v) == d1.offsets_of(n, v) by {
        if n == ix.index_name@ {
            lemma_index_for(&d2, last);
        } else if d1.has_index(n) {
            let i = choose|i: int| 0 <= i < d1.indices@.len() && (#[trigger] d1.indices@[i]).index_name@ == n;
            lemma_index_for(&d1, i);
            lemma_index_for(&d2, i);
        } else if d2.has_index(n) {
            let i = choose|i: int| 0 <= i < d2.indices@.len() && (#[trigger] d2.indices@[i]).index_name@ == n;
            assert(d1.indices@[i].index_name@ == n);
        }
    }
}

/// The pairs of the first `i + 1` fields are those of the first `i` and field `i`.
proof fn lemma_has_pair_step(r: Seq<(Seq<char>, Val)>, i: int, n: Seq<char>, v: Val)
    requires
        0 <= i < r.len(),
    ensures
        has_pair(r.take(i + 1), n, v) == (has_pair(r.take(i), n, v) || r[i] == (n, v)),
{
    if has_pair(r.take(i + 1), n, v) {
        let k = choose|k: int| 0 <= k < r.take(i + 1).len() && #[trigger] r.take(i + 1)[k] == (n, v);
        if k < i {
            assert(r.take(i)[k] == (n, v));
        }
    }
    if has_pair(r.take(i), n, v) {
        let k = choose|k: int| 0 <= k < r.take(i).len() && #[trigger] r.take(i)[k] == (n, v);
        assert(r.take(i + 1)[k] == (n, v));
    }
    if r[i] == (n, v) {
        assert(r.take(i + 1)[i] == (n, v));
    }
}

impl DataManager {
    /// Finds the index of `field`.
    fn find_index(&self, field: &String) -> (r: Option<usize>)
        requires
            self.wf(),
        ensures
            match r {
                Some(i) => i < self.indices@.len() && self.indices@[i as int].index_name@ == field@,
                None => !self.has_index(field@),
            },
    {
        let mut q: usize = 0;
        while q < self.indices.len()
            invariant
                0 <= q <= self.indices@.len(),
                forall|a: int| 0 <= a < q ==> (#[trigger] self.indices@[a]).index_name@ != field@,
            decreases self.indices@.len() - q,
        {
            if self.indices[q].index_name == *field {
                return Some(q);
            }
            q = q + 1;
        }
        None
    }

    /// Appends a record to the log, then adds its offset to the index of
    /// each of its fields, creating indexes for new fields.
    #[verifier::spinoff_prover]
    #[verifier::rlimit(60)]
    pub fn insert(&mut self, log: &Record) -> (r: Result<(), RecordError>)
        requires
            old(self).wf(),
            wf_record(log@),
        ensures
            final(self).wf(),
            match r {
                Ok(()) => exists|off: u64|
                    {
                        &&& appended(old(self).log_file, final(self).log_file, record_view(log@), off)
                        &&& forall|n: Seq<char>, v: Val|
                            wf_val(v) ==> #[trigger] final(self).offsets_of(n, v) == if has_pair(
                                record_view(log@),
                                n,
                                v,
                            ) {
                                old(self).offsets_of(n, v).insert(off)
                            } else {
                                old(self).offsets_of(n, v)
                            }
                    },
                Err(e) => e == RecordError::Encode && *final(self) == *old(self),
            },
            add_fits(old(self).log_file, record_view(log@)) ==> r is Ok,
            old(self).consistent() ==> final(self).consistent(),
    {
        let off = self.log_file.add(log)?;
        let ghost view = record_view(log@);
        let ghost pre = *old(self);
        let ghost mid = *self;
        proof {
            assert forall|n: Seq<char>, v: Val| #[trigger] mid.offsets_of(n, v) == pre.offsets_of(n, v) by {
                if pre.has_index(n) {
                    let i = choose|i: int| 0 <= i < pre.indices@.len() && (#[trigger] pre.indices@[i]).index_name@ == n;
                    lemma_index_for(&pre, i);
                    lemma_index_for(&mid, i);
                }
            }
            assert forall|n: Seq<char>, v: Val| wf_val(v) implies #[trigger] self.offsets_of(n, v) == (if has_pair(
                view.take(0),
                n,
                v,
            ) {
                pre.offsets_of(n, v).insert(off)
            } else {
                pre.offsets_of(n, v)
            }) by {}
        }
        let mut i: usize = 0;
        while i < log.len()
            invariant
                self.wf(),
                wf_record(log@),
                view == record_view(log@),
                self.log_file == mid.log_file,
                0 <= i <= log@.len(),
                forall|n: Seq<char>, v: Val|
                    wf_val(v) ==> #[trigger] self.offsets_of(n, v) == if has_pair(view.take(i as int), n, v) {
                        pre.offsets_of(n, v).insert(off)
                    } else {
                        pre.offsets_of(n, v)
                    },
            decreases log@.len() - i,
        {
            let key = &log[i].0;
            assert(log@[i as int].1.wf());
            let idx = match self.find_index(key) {
                Some(q) => q,
                None => {
                    let ix = match IndexFile::new(Vec::new(), key.clone()) {
                        Ok(ix) => ix,
                        Err(_) => {
                            return Err(RecordError::Encode);
                        },
                    };
                    let ghost d1 = *self;
                    proof {
                        assert forall|v: Val| #[trigger] ix.offsets(v) == Set::<u64>::empty() by {
                            assert(!ix.pending().contains_key(enc_val(v)));
                            assert(ix.entries@.len() == 0);
                            assert(ix.disk_list(v).to_set() =~= Set::<u64>::empty());
                            assert(ix.mem_list(v).to_set() =~= Set::<u64>::empty());
                        }
                    }
                    self.indices.push(ix);
                    proof {
                        lemma_offsets_of_push(d1, *self, ix);
                    }
                    self.indices.len() - 1
                },
            };
            let ghost d1 = *self;
            let mut ix = self.indices.remove(idx);
            let val = log[i].1.copy();
            let ghost ix0 = ix;
            ix.add(val, off);
            self.indices.insert(idx, ix);
            proof {
                assert(self.indices@ =~= d1.indices@.update(idx as int, ix));
                lemma_offsets_of_update(d1, *self, idx as int, ix);
                lemma_index_for(&d1, idx as int);
                assert forall|n: Seq<char>, v: Val| wf_val(v) implies #[trigger] self.offsets_of(n, v) == (if has_pair(
                    view.take(i + 1),
                    n,
                    v,
                ) {
                    pre.offsets_of(n, v).insert(off)
                } else {
                    pre.offsets_of(n, v)
                }) by {
                    lemma_has_pair_step(view, i as int, n, v);
                    assert(view[i as int] == (key@, val@));
                    if n == key@ {
                        lemma_offsets_after_add(ix0, ix, val@, off, v);
                        assert(self.offsets_of(n, v) == ix.offsets(v));
                        assert(d1.offsets_of(n, v) == ix0.offsets(v));
                        if v == val@ {
                            assert(self.offsets_of(n, v) =~= d1.offsets_of(n, v).insert(off));
                        }
                    }
                }
            }
            i = i + 1;
        }
        proof {
            assert(view.take(log@.len() as int) =~= view);
            if pre.consistent() {
                lemma_insert_consistent(pre, *self, view, off);
            }
        }
        Ok(())
    }
}

/// The values of a list of records.
pub open spec fn records_view(rs: Seq<Record>) -> Seq<Seq<(Seq<char>, Val)>> {
    rs.map_values(|r: Record| record_view(r@))
}

impl DataManager {
    /// `rs` are the records read, in order, at the offsets `l`, which are
    /// the offsets indexed under `v` in field `n` in ascending order.
    pub open spec fn fetched(&self, n: Seq<char>, v: Val, l: Seq<u64>, rs: Seq<Seq<(Seq<char>, Val)>>) -> bool {
        &&& strictly_ascending(l)
        &&& l.to_set() == self.offsets_of(n, v)
        &&& rs.len() == l.len()
        &&& forall|i: int|
            0 <= i < l.len() ==> (read_spec(self.log_file.rec_file.data@, #[trigger] l[i] as int) matches Some(
                b,
            ) && parse_record(b) == Some(rs[i]))
    }
}

impl DataManager {
    /// Every offset indexed under `v` in field `n` reads a record that decodes.
    pub open spec fn all_readable(&self, n: Seq<char>, v: Val) -> bool {
        forall|o: u64|
            #[trigger] self.offsets_of(n, v).contains(o) ==> (read_spec(self.log_file.rec_file.data@, o as int) matches Some(
                b,
            ) && parse_record(b) is Some)
    }

    /// `rs` were read at the offsets indexed under `v` in field `n`, in
    /// ascending order.
    pub open spec fn found(&self, n: Seq<char>, v: Val, rs: Seq<Seq<(Seq<char>, Val)>>) -> bool {
        exists|l: Seq<u64>| self.fetched(n, v, l, rs)
    }
}

proof fn lemma_read_consistent(dm: &DataManager, n: Seq<char>, v: Val, o: u64)
    requires
        dm.wf(),
        dm.consistent(),
        wf_val(v),
        dm.offsets_of(n, v).contains(o),
    ensures
        read_spec(dm.log_file.rec_file.data@, o as int) matches Some(b) && parse_record(b) is Some,
{
    reveal(DataManager::consistent);
    assert(dm.holds_at(n, v, o));
    let j = choose|j: int|
        0 <= j < dm.log_file.rec_file.records@.len() && o == dm.log_file.rec_file.offset_of(j)
            && (#[trigger] parse_record(dm.log_file.rec_file.records@[j])) is Some && has_pair(
            parse_record(dm.log_file.rec_file.records@[j])->Some_0,
            n,
            v,
        );
    crate::record_file::lemma_read_record(dm.log_file.rec_file, j);
}

impl DataManager {
    /// The records whose field `key` holds `value`, in the order of their
    /// offsets. An unknown field gives an empty list.
    #[verifier::spinoff_prover]
    pub fn get(&self, key: &str, value: &LogValue) -> (r: Result<Vec<Record>, RecordError>)
        requires
            self.wf(),
            value.wf(),
        ensures
            !self.has_index(key@) ==> (r matches Ok(rs) && rs@.len() == 0),
            self.consistent() ==> r is Ok,
            self.all_readable(key@, value@) ==> r is Ok,
            r matches Ok(rs) ==> self.found(key@, value@, records_view(rs@)),
            r matches Err(e) ==> e == RecordError::ShortRead || e == RecordError::Decode,
    {
        let field: String = key.to_owned();
        let idx = match self.find_index(&field) {
            Some(q) => q,
            None => {
                let empty: Vec<Record> = Vec::new();
                proof {
                    let l: Seq<u64> = seq![];
                    assert(l.to_set() =~= Set::<u64>::empty());
                    assert(self.fetched(key@, value@, l, records_view(empty@)));
                    assert(self.found(key@, value@, records_view(empty@)));
                }
                return Ok(empty);
            },
        };
        proof {
            lemma_index_for(self, idx as int);
            assert(self.indices@[idx as int].wf());
        }
        let locs = match self.indices[idx].get(value) {
            Ok(l) => l,
            Err(e) => {
                return Err(e);
            },
        };
        let mut out: Vec<Record> = Vec::new();
        let mut i: usize = 0;
        while i < locs.len()
            invariant
                self.wf(),
                value.wf(),
                strictly_ascending(locs@),
                locs@.to_set() == self.offsets_of(key@, value@),
                0 <= i <= locs@.len(),
                out@.len() == i,
                forall|a: int|
                    0 <= a < i ==> (read_spec(self.log_file.rec_file.data@, #[trigger] locs@[a] as int) matches Some(
                        b,
                    ) && parse_record(b) == Some(record_view(out@[a]@))),
            decreases locs@.len() - i,
        {
            proof {
                assert(locs@.to_set().contains(locs@[i as int]));
                if self.consistent() {
                    lemma_read_consistent(self, key@, value@, locs@[i as int]);
                }
                if self.all_readable(key@, value@) {
                    assert(self.offsets_of(key@, value@).contains(locs@[i as int]));
                }
            }
            let rec = match self.log_file.get(locs[i]) {
                Ok(rec) => rec,
                Err(e) => {
                    return Err(e);
                },
            };
            out.push(rec);
            i = i + 1;
        }
        proof {
            assert(records_view(out@).len() == locs@.len());
            assert forall|a: int| 0 <= a < locs@.len() implies (read_spec(
                self.log_file.rec_file.data@,
                #[trigger] locs@[a] as int,
            ) matches Some(b) && parse_record(b) == Some(records_view(out@)[a])) by {}
            assert(self.fetched(key@, value@, locs@, records_view(out@)));
            assert(self.found(key@, value@, records_view(out@)));
        }
        Ok(out)
    }
}

proof fn lemma_flushed_offsets(a: IndexFile, b: IndexFile, v: Val)
    requires
        b.pending().dom() == Set::<Seq<u8>>::empty(),
        b.disk_list(v).to_set() == a.offsets(v),
    ensures
        b.offsets(v) == a.offsets(v),
{
    assert(!b.pending().contains_key(enc_val(v)));
    assert(b.mem_list(v).to_set() =~= Set::<u64>::empty());
    assert(b.offsets(v) =~= a.offsets(v));
}

proof fn lemma_flush_step(d1: DataManager, d2: DataManager, i: int, ix0: IndexFile, ix: IndexFile)
    requires
        d1.wf(),
        0 <= i < d1.indices@.len(),
        ix0 == d1.indices@[i],
        d2.indices@ == d1.indices@.update(i, ix),
        d2.log_file == d1.log_file,
        ix.wf(),
        ix.index_name == ix0.index_name,
        ix == ix0 || (ix.pending().dom() == Set::<Seq<u8>>::empty() && forall|v: Val|
            wf_val(v) ==> #[trigger] ix.disk_list(v).to_set() == ix0.offsets(v)),
    ensures
        d2.wf(),
        forall|n: Seq<char>, v: Val| wf_val(v) ==> #[trigger] d2.offsets_of(n, v) == d1.offsets_of(n, v),
{
    lemma_offsets_of_update(d1, d2, i, ix);
    lemma_index_for(&d1, i);
    assert forall|n: Seq<char>, v: Val| wf_val(v) implies #[trigger] d2.offsets_of(n, v) == d1.offsets_of(
        n,
        v,
    ) by {
        if n == ix.index_name@ && ix != ix0 {
            lemma_flushed_offsets(ix0, ix, v);
        }
    }
}

/// Consistency depends only on the log and the indexed offsets.
proof fn lemma_consistent_same(d1: DataManager, d2: DataManager)
    requires
        d1.consistent(),
        d2.log_file.rec_file.records@ == d1.log_file.rec_file.records@,
        d2.log_file.rec_file.header_len == d1.log_file.rec_file.header_len,
        forall|n: Seq<char>, v: Val| wf_val(v) ==> #[trigger] d2.offsets_of(n, v) == d1.offsets_of(n, v),
    ensures
        d2.consistent(),
{
    reveal(DataManager::consistent);
    let f1 = d1.log_file.rec_file;
    let f2 = d2.log_file.rec_file;
    assert forall|j: int| 0 <= j <= f1.records@.len() implies f2.offset_of(j) == f1.offset_of(j) by {}
    assert forall|n: Seq<char>, v: Val, o: u64| wf_val(v) implies (#[trigger] d2.offsets_of(n, v).contains(o)
        <==> d2.holds_at(n, v, o)) by {
        assert(d1.offsets_of(n, v).contains(o) <==> d1.holds_at(n, v, o));
    }
}

/// Appending a record and indexing each of its fields keeps the indexes in
/// agreement with the log.
proof fn lemma_insert_consistent(d0: DataManager, d1: DataManager, r: Seq<(Seq<char>, Val)>, off: u64)
    requires
        d0.wf(),
        d0.consistent(),
        appended(d0.log_file, d1.log_file, r, off),
        forall|n: Seq<char>, v: Val|
            wf_val(v) ==> #[trigger] d1.offsets_of(n, v) == if has_pair(r, n, v) {
                d0.offsets_of(n, v).insert(off)
            } else {
                d0.offsets_of(n, v)
            },
    ensures
        d1.consistent(),
{
    reveal(DataManager::consistent);
    let f0 = d0.log_file.rec_file;
    let f1 = d1.log_file.rec_file;
    let len = f0.records@.len() as int;
    assert(f0.records@.take(len) =~= f0.records@);
    assert forall|j: int| 0 <= j <= len implies f1.offset_of(j) == f0.offset_of(j) by {
        assert(f1.records@.take(j) =~= f0.records@.take(j));
    }
    assert(f1.records@[len] == crate::record_codec::enc_record(r));
    assert forall|j: int| 0 <= j < f1.records@.len() implies (#[trigger] parse_record(f1.records@[j])) is Some by {
        if j < len {
            assert(f1.records@[j] == f0.records@[j]);
            assert(parse_record(f0.records@[j]) is Some);
        }
    }
    assert forall|n: Seq<char>, v: Val, o: u64| wf_val(v) implies (#[trigger] d1.offsets_of(n, v).contains(o)
        <==> d1.holds_at(n, v, o)) by {
        assert(d0.offsets_of(n, v).contains(o) <==> d0.holds_at(n, v, o));
        if d0.holds_at(n, v, o) {
            let j = choose|j: int|
                0 <= j < f0.records@.len() && o == f0.offset_of(j)
                    && (#[trigger] parse_record(f0.records@[j])) is Some && has_pair(
                    parse_record(f0.records@[j])->Some_0,
                    n,
                    v,
                );
            assert(f1.records@[j] == f0.records@[j]);
            assert(d1.holds_at(n, v, o));
        }
        if has_pair(r, n, v) && o == off {
            assert(parse_record(f1.records@[len]) == Some(r));
            assert(d1.holds_at(n, v, o));
        }
        if d1.holds_at(n, v, o) {
            let j = choose|j: int|
                0 <= j < f1.records@.len() && o == f1.offset_of(j)
                    && (#[trigger] parse_record(f1.records@[j])) is Some && has_pair(
                    parse_record(f1.records@[j])->Some_0,
                    n,
                    v,
                );
            if j < len {
                assert(f1.records@[j] == f0.records@[j]);
                assert(d0.holds_at(n, v, o));
            } else {
                assert(o == off);
                assert(parse_record(f1.records@[len]) == Some(r));
            }
        }
    }
}

/// What `get` returns on a consistent store: each record holds the value in
/// the field and is a record of the log, and every record of the log that
/// holds it is returned.
pub proof fn lemma_get_exact(dm: DataManager, n: Seq<char>, v: Val, rs: Seq<Seq<(Seq<char>, Val)>>)
    requires
        dm.wf(),
        dm.consistent(),
        wf_val(v),
        dm.found(n, v, rs),
    ensures
        forall|i: int|
            0 <= i < rs.len() ==> has_pair(#[trigger] rs[i], n, v) && exists|j: int|
                0 <= j < dm.log_file.rec_file.records@.len() && parse_record(
                    dm.log_file.rec_file.records@[j],
                ) == Some(rs[i]),
        forall|j: int|
            0 <= j < dm.log_file.rec_file.records@.len() && (#[trigger] parse_record(
                dm.log_file.rec_file.records@[j],
            )) is Some && has_pair(parse_record(dm.log_file.rec_file.records@[j])->Some_0, n, v)
                ==> exists|i: int| 0 <= i < rs.len() && parse_record(dm.log_file.rec_file.records@[j]) == Some(rs[i]),
{
    reveal(DataManager::consistent);
    let f = dm.log_file.rec_file;
    let l = choose|l: Seq<u64>| dm.fetched(n, v, l, rs);
    assert forall|i: int| 0 <= i < rs.len() implies has_pair(#[trigger] rs[i], n, v) && exists|j: int|
        0 <= j < f.records@.len() && parse_record(f.records@[j]) == Some(rs[i]) by {
        assert(l.to_set().contains(l[i]));
        assert(dm.offsets_of(n, v).contains(l[i]));
        assert(dm.holds_at(n, v, l[i]));
        let j = choose|j: int|
            0 <= j < f.records@.len() && l[i] == f.offset_of(j)
                && (#[trigger] parse_record(f.records@[j])) is Some && has_pair(
                parse_record(f.records@[j])->Some_0,
                n,
                v,
            );
        crate::record_file::lemma_read_record(f, j);
    }
    assert forall|j: int|
        0 <= j < f.records@.len() && (#[trigger] parse_record(f.records@[j])) is Some && has_pair(
            parse_record(f.records@[j])->Some_0,
            n,
            v,
        ) implies exists|i: int| 0 <= i < rs.len() && parse_record(f.records@[j]) == Some(rs[i]) by {
        let o = f.offset_of(j) as u64;
        crate::record_file::lemma_read_record(f, j);
        assert(dm.holds_at(n, v, o));
        assert(dm.offsets_of(n, v).contains(o));
        assert(l.to_set().contains(o));
        let i = choose|i: int| 0 <= i < l.len() && l[i] == o;
        assert(parse_record(f.records@[j]) == Some(rs[i]));
    }
}

/// A store whose log holds the same records as a consistent store's, and
/// whose index for each field holds the same records with nothing pending,
/// is consistent and indexes the same offsets: every get gives the same
/// records.
pub proof fn lemma_store_reopen(dm: DataManager, re: DataManager)
    requires
        dm.wf(),
        dm.consistent(),
        re.wf(),
        re.log_file.rec_file.records@ == dm.log_file.rec_file.records@,
        forall|i: int|
            0 <= i < dm.indices@.len() ==> (#[trigger] dm.indices@[i]).pending().dom() == Set::<
                Seq<u8>,
            >::empty(),
        forall|n: Seq<char>| #[trigger] re.has_index(n) == dm.has_index(n),
        forall|n: Seq<char>|
            #[trigger] dm.has_index(n) ==> re.index_for(n).rec_file.records@ == dm.index_for(
                n,
            ).rec_file.records@ && re.index_for(n).pending().dom() == Set::<Seq<u8>>::empty(),
    ensures
        re.consistent(),
        forall|n: Seq<char>, v: Val| #[trigger] re.offsets_of(n, v) == dm.offsets_of(n, v),
{
    reveal(DataManager::consistent);
    assert forall|n: Seq<char>, v: Val| #[trigger] re.offsets_of(n, v) == dm.offsets_of(n, v) by {
        if dm.has_index(n) {
            let i = choose|i: int| 0 <= i < dm.indices@.len() && (#[trigger] dm.indices@[i]).index_name@ == n;
            lemma_index_for(&dm, i);
            assert(re.has_index(n));
            let j = choose|j: int| 0 <= j < re.indices@.len() && (#[trigger] re.indices@[j]).index_name@ == n;
            lemma_index_for(&re, j);
            assert(dm.indices@[i].pending().dom() == Set::<Seq<u8>>::empty());
            lemma_index_reopen(dm.index_for(n), re.index_for(n), v);
        }
    }
    let f0 = dm.log_file.rec_file;
    let f1 = re.log_file.rec_file;
    assert forall|j: int| 0 <= j <= f0.records@.len() implies f1.offset_of(j) == f0.offset_of(j) by {}
    assert forall|n: Seq<char>, v: Val, o: u64| wf_val(v) implies (#[trigger] re.offsets_of(n, v).contains(o)
        <==> re.holds_at(n, v, o)) by {
        assert(dm.offsets_of(n, v).contains(o) <==> dm.holds_at(n, v, o));
        if dm.holds_at(n, v, o) {
            let j = choose|j: int|
                0 <= j < f0.records@.len() && o == f0.offset_of(j)
                    && (#[trigger] parse_record(f0.records@[j])) is Some && has_pair(
                    parse_record(f0.records@[j])->Some_0,
                    n,
                    v,
                );
            assert(re.holds_at(n, v, o));
        }
        if re.holds_at(n, v, o) {
            let j = choose|j: int|
                0 <= j < f1.records@.len() && o == f1.offset_of(j)
                    && (#[trigger] parse_record(f1.records@[j])) is Some && has_pair(
                    parse_record(f1.records@[j])->Some_0,
                    n,
                    v,
                );
            assert(dm.holds_at(n, v, o));
        }
    }
}

/// A consistent store whose indexes and log were closed opens again from
/// their images, and the store opened from them is consistent and indexes
/// the same offsets: every get returns the same records.
pub proof fn lemma_close_reopen_store(
    dm: DataManager,
    log_image: Seq<u8>,
    images: Seq<(String, Vec<u8>)>,
    re: DataManager,
)
    requires
        dm.wf(),
        dm.consistent(),
        forall|i: int|
            0 <= i < dm.indices@.len() ==> closed_layout(#[trigger] dm.indices@[i])
                && dm.indices@[i].pending().dom() == Set::<Seq<u8>>::empty(),
        crate::record_file::open_spec(log_image, log_header()) == Ok::<(Seq<Seq<u8>>, int), RecordError>(
            (dm.log_file.rec_file.records@, dm.log_file.rec_file.end_of_file as int),
        ),
        !unclean(log_image),
        images.len() == dm.indices@.len(),
        forall|k: int|
            0 <= k < images.len() ==> (#[trigger] images[k]).0@ == dm.indices@[k].index_name@
                && images[k].1@ == dm.indices@[k].rec_file.data@,
    ensures
        images_open(log_image, images),
        re.wf() && opened_from(re, log_image, images) ==> re.consistent() && forall|n: Seq<char>, v: Val|
            #[trigger] re.offsets_of(n, v) == dm.offsets_of(n, v),
{
    let len = images.len() as int;
    assert forall|k: int| 0 <= k < len implies crate::record_file::open_spec(
        (#[trigger] images[k]).1@,
        index_header(),
    ) == Ok::<(Seq<Seq<u8>>, int), RecordError>(
        (dm.indices@[k].rec_file.records@, dm.indices@[k].rec_file.end_of_file as int),
    ) && valid_index_image(images[k].1@) by {
        lemma_closed_index_valid(dm.indices@[k]);
    }
    assert(images_open(log_image, images)) by {
        reveal(images_open);
        assert forall|a: int, b: int| 0 <= a < b < len implies (#[trigger] images[a]).0@ != (
        #[trigger] images[b]).0@ by {
            assert(dm.indices@[a].index_name@ != dm.indices@[b].index_name@);
        }
    }
    if re.wf() && opened_from(re, log_image, images) {
        reveal(index_from);
        assert forall|i: int| 0 <= i < len implies (#[trigger] re.indices@[i]).index_name@
            == dm.indices@[len - 1 - i].index_name@ && re.indices@[i].rec_file.records@
            == dm.indices@[len - 1 - i].rec_file.records@ && re.indices@[i].pending().dom() == Set::<
            Seq<u8>,
        >::empty() by {
            assert(index_from(re.indices@[i], images[len - 1 - i]));
            assert(images[len - 1 - i].0@ == dm.indices@[len - 1 - i].index_name@);
        }
        assert forall|n: Seq<char>| #[trigger] re.has_index(n) == dm.has_index(n) by {
            if dm.has_index(n) {
                let i = choose|i: int| 0 <= i < dm.indices@.len() && (#[trigger] dm.indices@[i]).index_name@ == n;
                assert(re.indices@[len - 1 - i].index_name@ == n);
            }
            if re.has_index(n) {
                let j = choose|j: int| 0 <= j < re.indices@.len() && (#[trigger] re.indices@[j]).index_name@ == n;
                assert(dm.indices@[len - 1 - j].index_name@ == n);
            }
        }
        assert forall|n: Seq<char>| #[trigger] dm.has_index(n) implies re.index_for(n).rec_file.records@
            == dm.index_for(n).rec_file.records@ && re.index_for(n).pending().dom() == Set::<
            Seq<u8>,
        >::empty() by {
            assert(re.has_index(n));
            let j = choose|j: int| 0 <= j < re.indices@.len() && (#[trigger] re.indices@[j]).index_name@ == n;
            lemma_index_for(&re, j);
            lemma_index_for(&dm, len - 1 - j);
        }
        lemma_store_reopen(dm, re);
    }
}

/// Closing a consistent store and opening the images it leaves gives a
/// consistent store with the same indexed offsets as before the close:
/// every get returns the same records.
pub proof fn lemma_store_survives_close(
    pre: DataManager,
    post: DataManager,
    images: Seq<(String, Vec<u8>)>,
    re: DataManager,
)
    requires
        pre.wf(),
        pre.consistent(),
        post.wf(),
        post.consistent(),
        post.log_file.rec_file.data@ == pre.log_file.rec_file.closed_image(),
        post.log_file.rec_file.records@ == pre.log_file.rec_file.records@,
        post.log_file.rec_file.end_of_file == pre.log_file.rec_file.end_of_file,
        forall|i: int|
            0 <= i < post.indices@.len() ==> closed_layout(#[trigger] post.indices@[i])
                && post.indices@[i].pending().dom() == Set::<Seq<u8>>::empty(),
        forall|n: Seq<char>, v: Val| wf_val(v) ==> #[trigger] post.offsets_of(n, v) == pre.offsets_of(n, v),
        images.len() == post.indices@.len(),
        forall|k: int|
            0 <= k < images.len() ==> (#[trigger] images[k]).0@ == post.indices@[k].index_name@
                && images[k].1@ == post.indices@[k].rec_file.data@,
    ensures
        images_open(post.log_file.rec_file.data@, images),
        re.wf() && opened_from(re, post.log_file.rec_file.data@, images) ==> re.consistent() && forall|
            n: Seq<char>,
            v: Val,
        | wf_val(v) ==> #[trigger] re.offsets_of(n, v) == pre.offsets_of(n, v),
{
    crate::log_file::lemma_log_reopen(pre.log_file);
    lemma_close_reopen_store(post, post.log_file.rec_file.data@, images, re);
}

/// The positions of the log records that hold `v` in field `n`.
pub open spec fn matching(dm: DataManager, n: Seq<char>, v: Val) -> Set<int> {
    Set::new(
        |j: int|
            0 <= j < dm.log_file.rec_file.records@.len() && parse_record(dm.log_file.rec_file.records@[j]) is Some
                && has_pair(parse_record(dm.log_file.rec_file.records@[j])->Some_0, n, v),
    )
}

proof fn lemma_offsets_increasing(f: crate::record_file::RecordFile, i: int, j: int)
    requires
        f.wf(),
        0 <= i < j <= f.records@.len(),
    ensures
        f.offset_of(i) < f.offset_of(j),
        f.offset_of(j) <= f.end_of_file,
    decreases j - i,
{
    crate::record_file::lemma_read_record(f, j - 1);
    if i < j - 1 {
        lemma_offsets_increasing(f, i, j - 1);
    }
}

/// On a consistent store, `get` returns one record per log record that
/// holds the value in the field.
pub proof fn lemma_get_count(dm: DataManager, n: Seq<char>, v: Val, rs: Seq<Seq<(Seq<char>, Val)>>)
    requires
        dm.wf(),
        dm.consistent(),
        wf_val(v),
        dm.found(n, v, rs),
    ensures
        matching(dm, n, v).finite(),
        rs.len() == matching(dm, n, v).len(),
{
    reveal(DataManager::consistent);
    let f = dm.log_file.rec_file;
    let len = f.records@.len() as int;
    let js = matching(dm, n, v);
    vstd::set_lib::lemma_int_range(0, len);
    assert(js.subset_of(vstd::set_lib::set_int_range(0, len)));
    vstd::set_lib::lemma_len_subset(js, vstd::set_lib::set_int_range(0, len));
    let off = |j: int| f.offset_of(j) as u64;
    assert(vstd::relations::injective_on(off, js)) by {
        assert forall|a: int, b: int| js.contains(a) && js.contains(b) && #[trigger] off(a) == #[trigger] off(b)
            implies a == b by {
            if a < b {
                lemma_offsets_increasing(f, a, b);
            } else if b < a {
                lemma_offsets_increasing(f, b, a);
            }
        }
    }
    let l = choose|l: Seq<u64>| dm.fetched(n, v, l, rs);
    assert(js.map(off) =~= dm.offsets_of(n, v)) by {
        assert forall|o: u64| js.map(off).contains(o) implies dm.offsets_of(n, v).contains(o) by {
            let j = choose|j: int| js.contains(j) && off(j) == o;
            crate::record_file::lemma_read_record(f, j);
            if j + 1 < len {
                lemma_offsets_increasing(f, j + 1, len);
            }
            assert(f.offset_of(j + 1) <= f.end_of_file) by {
                if j + 1 < len {
                    lemma_offsets_increasing(f, j + 1, len);
                }
            }
            assert(dm.holds_at(n, v, o));
        }
        assert forall|o: u64| dm.offsets_of(n, v).contains(o) implies js.map(off).contains(o) by {
            assert(dm.holds_at(n, v, o));
            let j = choose|j: int|
                0 <= j < f.records@.len() && o == f.offset_of(j)
                    && (#[trigger] parse_record(f.records@[j])) is Some && has_pair(
                    parse_record(f.records@[j])->Some_0,
                    n,
                    v,
                );
            assert(js.contains(j));
            assert(off(j) == o);
        }
    }
    vstd::set_lib::lemma_map_size(js, dm.offsets_of(n, v), off);
    lemma_strict_len(l);
}

impl DataManager {
    /// Flushes every index; the indexed offsets stay the same.
    pub fn flush(&mut self) -> (r: Result<(), RecordError>)
        requires
            old(self).wf(),
        ensures
            final(self).wf(),
            final(self).log_file == old(self).log_file,
            forall|n: Seq<char>, v: Val|
                wf_val(v) ==> #[trigger] final(self).offsets_of(n, v) == old(self).offsets_of(n, v),
            old(self).consistent() ==> final(self).consistent(),
            final(self).indices@.len() == old(self).indices@.len(),
            r matches Ok(_) ==> forall|i: int|
                0 <= i < final(self).indices@.len() ==> (#[trigger] final(self).indices@[i]).pending().dom()
                    == Set::<Seq<u8>>::empty(),
            r matches Err(e) ==> e == RecordError::FlushFailed,
            (forall|i: int| 0 <= i < old(self).indices@.len() ==> flush_fits(#[trigger] old(self).indices@[i]))
                ==> r is Ok,
    {
        let ghost pre = *self;
        let mut i: usize = 0;
        while i < self.indices.len()
            invariant
                self.wf(),
                pre.wf(),
                pre == *old(self),
                self.log_file == pre.log_file,
                self.indices@.len() == pre.indices@.len(),
                0 <= i <= self.indices@.len(),
                forall|n: Seq<char>, v: Val|
                    wf_val(v) ==> #[trigger] self.offsets_of(n, v) == pre.offsets_of(n, v),
                forall|a: int|
                    0 <= a < i ==> (#[trigger] self.indices@[a]).pending().dom() == Set::<Seq<u8>>::empty(),
                forall|a: int| i <= a < self.indices@.len() ==> #[trigger] self.indices@[a] == pre.indices@[a],
            decreases self.indices@.len() - i,
        {
            let ghost d1 = *self;
            let mut ix = self.indices.remove(i);
            let ghost ix0 = ix;
            let res = ix.flush();
            self.indices.insert(i, ix);
            proof {
                assert(self.indices@ =~= d1.indices@.update(i as int, ix));
                lemma_flush_step(d1, *self, i as int, ix0, ix);
                assert forall|a: int| 0 <= a < i implies self.indices@[a] == d1.indices@[a] by {}
                assert forall|a: int| i < a < self.indices@.len() implies #[trigger] self.indices@[a]
                    == pre.indices@[a] by {
                    assert(self.indices@[a] == d1.indices@[a]);
                }
            }
            if res.is_err() {
                proof {
                    assert(ix0 == pre.indices@[i as int]);
                    if pre.consistent() {
                        lemma_consistent_same(pre, *self);
                    }
                }
                return Err(RecordError::FlushFailed);
            }
            i = i + 1;
        }
        proof {
            if pre.consistent() {
                lemma_consistent_same(pre, *self);
            }
        }
        Ok(())
    }

    /// Closes every index, storing its term map, then writes the log's count
    /// and end into its image.
    pub fn close(&mut self) -> (r: Result<(), RecordError>)
        requires
            old(self).wf(),
        ensures
            final(self).wf(),
            r matches Ok(_) ==> final(self).log_file.rec_file.data@
                == old(self).log_file.rec_file.closed_image(),
            r matches Ok(_) ==> final(self).log_file.rec_file.records@
                == old(self).log_file.rec_file.records@,
            r matches Ok(_) ==> final(self).log_file.rec_file.end_of_file
                == old(self).log_file.rec_file.end_of_file,
            r matches Ok(_) ==> forall|i: int|
                0 <= i < final(self).indices@.len() ==> closed_layout(#[trigger] final(self).indices@[i])
                    && final(self).indices@[i].pending().dom() == Set::<Seq<u8>>::empty(),
            r matches Ok(_) ==> forall|n: Seq<char>, v: Val|
                wf_val(v) ==> #[trigger] final(self).offsets_of(n, v) == old(self).offsets_of(n, v),
            r matches Ok(_) ==> (old(self).consistent() ==> final(self).consistent()),
            r matches Err(e) ==> e == RecordError::FlushFailed,
            (forall|i: int| 0 <= i < old(self).indices@.len() ==> flush_fits(#[trigger] old(self).indices@[i]))
                ==> r is Ok,
    {
        let ghost pre = *self;
        let mut i: usize = 0;
        while i < self.indices.len()
            invariant
                self.wf(),
                pre == *old(self),
                pre.wf(),
                self.log_file == old(self).log_file,
                forall|n: Seq<char>, v: Val|
                    wf_val(v) ==> #[trigger] self.offsets_of(n, v) == pre.offsets_of(n, v),
                0 <= i <= self.indices@.len(),
                forall|a: int|
                    0 <= a < i ==> closed_layout(#[trigger] self.indices@[a])
                        && self.indices@[a].pending().dom() == Set::<Seq<u8>>::empty(),
                self.indices@.len() == pre.indices@.len(),
                forall|a: int| i <= a < self.indices@.len() ==> #[trigger] self.indices@[a] == pre.indices@[a],
            decreases self.indices@.len() - i,
        {
            let ghost d1 = *self;
            let mut ix = self.indices.remove(i);
            let ghost ix0 = ix;
            let res = ix.close();
            self.indices.insert(i, ix);
            proof {
                assert(self.indices@ =~= d1.indices@.update(i as int, ix));
                lemma_flush_step(d1, *self, i as int, ix0, ix);
                assert forall|a: int| 0 <= a < i implies self.indices@[a] == d1.indices@[a] by {}
                assert forall|a: int| i < a < self.indices@.len() implies #[trigger] self.indices@[a]
                    == pre.indices@[a] by {
                    assert(self.indices@[a] == d1.indices@[a]);
                }
            }
            if res.is_err() {
                assert(ix0 == pre.indices@[i as int]);
                return Err(RecordError::FlushFailed);
            }
            i = i + 1;
        }
        let ghost before_log = *self;
        self.log_file.close();
        proof {
            assert forall|n: Seq<char>, v: Val| #[trigger] self.offsets_of(n, v) == before_log.offsets_of(n, v) by {}
            if pre.consistent() {
                lemma_consistent_same(pre, *self);
            }
        }
        Ok(())
    }

    /// The image of the log file.
    pub fn log_image(&self) -> (r: &Vec<u8>)
        ensures
            r@ == self.log_file.rec_file.data@,
    {
        self.log_file.image()
    }

    /// The number of indexes.
    pub fn index_count(&self) -> (r: usize)
        ensures
            r == self.indices@.len(),
    {
        self.indices.len()
    }

    /// The field name and image of index `i`.
    pub fn index_image(&self, i: usize) -> (r: (&String, &Vec<u8>))
        requires
            i < self.indices@.len(),
        ensures
            r.0@ == self.indices@[i as int].index_name@,
            r.1@ == self.indices@[i as int].rec_file.data@,
    {
        (&self.indices[i].index_name, self.indices[i].image())
    }
}

} // verus!
