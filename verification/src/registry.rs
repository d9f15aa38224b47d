use vstd::map::*;
use vstd::prelude::*;
use vstd::slice::slice_index_get;
use vstd::slice::slice_subrange;
use vstd::string::StringSliceAdditionalSpecFns;

use crate::error::Error;
use crate::parsing::line_parse_bytes;
use crate::parsing::line_parsed;
use crate::selector::Selector;
use ethers::abi::Function;

verus! {

/// Appends `function` to the bucket of `key`, creating the bucket when the
/// key is absent. This describes the single way any entry enters a registry.
pub open spec fn bucket_insert(
    m: Map<Seq<u8>, Seq<Function>>,
    key: Seq<u8>,
    function: Function,
) -> Map<Seq<u8>, Seq<Function>> {
    if m.contains_key(key) {
        m.insert(key, m[key].push(function))
    } else {
        m.insert(key, seq![function])
    }
}

/// `i` is the position of the first newline in `b`.
pub open spec fn is_first_newline(b: Seq<u8>, i: int) -> bool {
    &&& 0 <= i < b.len()
    &&& b[i] == 0x0au8
    &&& forall|j: int| 0 <= j < i ==> #[trigger] b[j] != 0x0au8
}

pub open spec fn has_newline(b: Seq<u8>) -> bool {
    exists|i: int| is_first_newline(b, i)
}

pub open spec fn first_newline(b: Seq<u8>) -> int {
    choose|i: int| is_first_newline(b, i)
}

/// Splits raw bytes into lines: the text is cut at every newline byte, and
/// the (possibly empty) remainder after the last newline forms a final line
/// only when the text as a whole is non-empty.
pub open spec fn split_lines(b: Seq<u8>) -> Seq<Seq<u8>>
    decreases b.len(),
{
    if b.len() == 0 {
        Seq::empty()
    } else if has_newline(b) {
        seq![b.take(first_newline(b))] + split_lines(b.skip(first_newline(b) + 1))
    } else {
        seq![b]
    }
}

/// Folds the lines from index `i` on into the accumulated mapping `acc`,
/// stopping at the first hard parse error: parse-filtered lines contribute
/// nothing, every parsed record is appended to its selector's bucket in
/// line order.
pub open spec fn load_lines(
    lines: Seq<Seq<u8>>,
    i: int,
    acc: Map<Seq<u8>, Seq<Function>>,
) -> Result<Map<Seq<u8>, Seq<Function>>, Error>
    decreases lines.len() - i,
{
    if i < 0 || i >= lines.len() {
        Ok(acc)
    } else {
        match line_parsed(lines[i]) {
            Err(e) => Err(e),
            Ok(None) => load_lines(lines, i + 1, acc),
            Ok(Some(entry)) => load_lines(lines, i + 1, bucket_insert(acc, entry.0@, entry.1)),
        }
    }
}

/// The mapping that loading the given raw bytes produces, or the first hard
/// error encountered; on an error no partial mapping survives.
pub open spec fn loaded(b: Seq<u8>) -> Result<Map<Seq<u8>, Seq<Function>>, Error> {
    load_lines(split_lines(b), 0, Map::empty())
}

/// The registry: an in-memory mapping from each known selector to the
/// non-empty, insertion-ordered collection of signatures recorded for it.
/// Collisions are expected and surfaced, not resolved: every record is
/// retained, duplicates included.
#[derive(Debug, Clone)]
pub struct EvmSelectors {
    items: Vec<(Selector, Vec<Function>)>,
}

impl View for EvmSelectors {
    type V = Map<Seq<u8>, Seq<Function>>;

    closed spec fn view(&self) -> Map<Seq<u8>, Seq<Function>> {
        Map::new(
            |k: Seq<u8>| self.contains_selector(k),
            |k: Seq<u8>| self.items@[self.index_of(k)].1@,
        )
    }
}

impl EvmSelectors {
    /// Well-formed: no selector occurs under two entries, and no bucket is
    /// empty.
    pub closed spec fn wf(&self) -> bool {
        &&& forall|i: int, j: int|
            0 <= i < j < self.items@.len() ==> (#[trigger] self.items@[i]).0@ != (
            #[trigger] self.items@[j]).0@
        &&& forall|i: int| 0 <= i < self.items@.len() ==> (#[trigger] self.items@[i]).1@.len() > 0
    }

    spec fn contains_selector(&self, k: Seq<u8>) -> bool {
        exists|i: int| 0 <= i < self.items@.len() && (#[trigger] self.items@[i]).0@ == k
    }

    spec fn index_of(&self, k: Seq<u8>) -> int {
        choose|i: int| 0 <= i < self.items@.len() && (#[trigger] self.items@[i]).0@ == k
    }

    proof fn lemma_index_of(&self, k: Seq<u8>, i: int)
        requires
            self.wf(),
            0 <= i < self.items@.len(),
            self.items@[i].0@ == k,
        ensures
            self.index_of(k) == i,
            self@.contains_key(k),
            self@[k] == self.items@[i].1@,
    {
        assert(self.contains_selector(k));
        let j = self.index_of(k);
        assert(0 <= j < self.items@.len() && self.items@[j].0@ == k);
        if i < j {
            assert(self.items@[i].0@ != self.items@[j].0@);
        } else if j < i {
            assert(self.items@[j].0@ != self.items@[i].0@);
        }
    }

    proof fn lemma_absent(&self, k: Seq<u8>)
        requires
            forall|i: int| 0 <= i < self.items@.len() ==> (#[trigger] self.items@[i]).0@ != k,
        ensures
            !self@.contains_key(k),
    {
    }

    /// Every selector present in a well-formed registry carries at least
    /// one signature: no empty bucket is ever observable.
    pub proof fn lemma_buckets_nonempty(&self)
        requires
            self.wf(),
        ensures
            forall|k: Seq<u8>| #[trigger] self@.contains_key(k) ==> self@[k].len() > 0,
    {
        assert forall|k: Seq<u8>| #[trigger] self@.contains_key(k) implies self@[k].len() > 0 by {
            let i = self.index_of(k);
            assert(self.contains_selector(k));
            assert(0 <= i < self.items@.len() && self.items@[i].0@ == k);
        }
    }

    fn new() -> (r: EvmSelectors)
        ensures
            r.wf(),
            r@ == Map::<Seq<u8>, Seq<Function>>::empty(),
    {
        let r = EvmSelectors { items: Vec::new() };
        proof {
            assert(r@ =~= Map::<Seq<u8>, Seq<Function>>::empty());
        }
        r
    }

    /// Looks up the position of `selector` among the entries.
    fn find_index(&self, selector: &Selector) -> (r: Option<usize>)
        requires
            self.wf(),
        ensures
            r matches Some(i) ==> 0 <= i < self.items@.len() && self.items@[i as int].0@
                == selector@,
            r is None ==> forall|i: int|
                0 <= i < self.items@.len() ==> (#[trigger] self.items@[i]).0@ != selector@,
    {
        let mut i: usize = 0;
        while i < self.items.len()
            invariant
                0 <= i <= self.items@.len(),
                forall|j: int| 0 <= j < i ==> (#[trigger] self.items@[j]).0@ != selector@,
            decreases self.items@.len() - i,
        {
            let pair: &(Selector, Vec<Function>) = &self.items[i];
            if pair.0 == *selector {
                return Some(i);
            }
            i = i + 1;
        }
        None
    }

    /// Returns the signatures known for the given selector, or nothing for
    /// an unknown one. Especially 4-byte selectors collide, so several
    /// signatures can come back; the caller decides which one to use.
    pub fn get(&self, selector: &Selector) -> (r: Option<&Vec<Function>>)
        requires
            self.wf(),
        ensures
            (match r {
                Some(bucket) => self@.contains_key(selector@) && bucket@ == self@[selector@]
                    && bucket@.len() > 0,
                None => !self@.contains_key(selector@),
            }),
    {
        match self.find_index(selector) {
            Some(i) => {
                proof {
                    self.lemma_index_of(selector@, i as int);
                }
                Some(&self.items[i].1)
            },
            None => {
                proof {
                    self.lemma_absent(selector@);
                }
                None
            },
        }
    }

    /// Returns all entries, each selector paired with its bucket: every
    /// selector of the mapping appears under exactly one entry.
    pub fn items(&self) -> (r: &Vec<(Selector, Vec<Function>)>)
        requires
            self.wf(),
        ensures
            forall|i: int|
                0 <= i < r@.len() ==> self@.contains_key((#[trigger] r@[i]).0@) && self@[r@[i].0@]
                    == r@[i].1@,
            forall|k: Seq<u8>|
                #[trigger] self@.contains_key(k) ==> exists|i: int|
                    0 <= i < r@.len() && (#[trigger] r@[i]).0@ == k,
            forall|i: int, j: int| 0 <= i < j < r@.len() ==> r@[i].0@ != r@[j].0@,
    {
        proof {
            assert forall|i: int| 0 <= i < self.items@.len() implies self@.contains_key(
                (#[trigger] self.items@[i]).0@,
            ) && self@[self.items@[i].0@] == self.items@[i].1@ by {
                self.lemma_index_of(self.items@[i].0@, i);
            }
        }
        &self.items
    }

    /// Appends one signature to the selector's bucket, creating the bucket
    /// when the selector is new. No duplicate check is made; the entry is
    /// kept in memory only, nothing is persisted.
    pub fn push(&mut self, selector: Selector, function: Function)
        requires
            old(self).wf(),
        ensures
            final(self).wf(),
            final(self)@ == bucket_insert(old(self)@, selector@, function),
    {
        let ghost m0 = self@;
        let ghost old_items = self.items@;
        match self.find_index(&selector) {
            Some(i) => {
                proof {
                    self.lemma_index_of(selector@, i as int);
                }
                let mut pair = self.items.remove(i);
                pair.1.push(function);
                let ghost new_pair = pair;
                self.items.insert(i, pair);
                proof {
                    assert(new_pair.0 == old_items[i as int].0);
                    assert(new_pair.1@ == old_items[i as int].1@.push(function));
                    assert(self.items@ =~= old_items.update(i as int, new_pair));
                    assert(self.wf());
                    self.lemma_push_view(*old(self), selector@, function, i as int);
                }
            },
            None => {
                let mut bucket: Vec<Function> = Vec::new();
                bucket.push(function);
                proof {
                    assert(bucket@ =~= seq![function]);
                }
                let ghost gi = old_items.len() as int;
                self.items.push((selector, bucket));
                proof {
                    assert(self.items@.len() == old_items.len() + 1);
                    assert(self.items@[gi].0@ == selector@);
                    assert(self.items@[gi].1@ == seq![function]);
                    assert(forall|j: int| 0 <= j < old_items.len() ==> self.items@[j] == old_items[j]);
                    assert(self.wf());
                    old(self).lemma_absent(selector@);
                    self.lemma_push_view(*old(self), selector@, function, gi);
                }
            },
        }
    }

    /// After appending `function` under `key` at entry position `i`, the
    /// mapping is exactly `bucket_insert` of the old mapping.
    proof fn lemma_push_view(&self, prev: EvmSelectors, key: Seq<u8>, function: Function, i: int)
        requires
            self.wf(),
            prev.wf(),
            0 <= i < self.items@.len(),
            self.items@[i].0@ == key,
            self.items@[i].1@ == (if prev@.contains_key(key) {
                prev@[key].push(function)
            } else {
                seq![function]
            }),
            self.items@.len() == (if prev@.contains_key(key) {
                prev.items@.len()
            } else {
                prev.items@.len() + 1
            }),
            forall|j: int|
                0 <= j < prev.items@.len() && j != i ==> #[trigger] self.items@[j]
                    == prev.items@[j],
            prev@.contains_key(key) ==> i < prev.items@.len() && prev.items@[i].0@ == key,
            !prev@.contains_key(key) ==> i == prev.items@.len(),
        ensures
            self@ == bucket_insert(prev@, key, function),
    {
        let target = bucket_insert(prev@, key, function);
        assert_maps_equal!(self.view(), target, k => {
            if k == key {
                self.lemma_index_of(k, i);
            } else {
                if self.contains_selector(k) {
                    let j = self.index_of(k);
                    assert(0 <= j < self.items@.len() && self.items@[j].0@ == k);
                    assert(j != i);
                    assert(j < prev.items@.len());
                    assert(prev.items@[j].0@ == k);
                    self.lemma_index_of(k, j);
                    prev.lemma_index_of(k, j);
                } else {
                    assert(!self@.contains_key(k));
                    if prev@.contains_key(k) {
                        assert(prev.contains_selector(k));
                        let j = prev.index_of(k);
                        assert(0 <= j < prev.items@.len() && prev.items@[j].0@ == k);
                        assert(self.items@[j].0@ == k);
                        assert(self.contains_selector(k));
                        assert(false);
                    }
                    assert(!target.contains_key(k));
                }
            }
        });
    }

    /// Builds a registry from raw export text: every line is parsed in
    /// order; the first hard error aborts the whole load and no partial
    /// registry survives; records whose signature text the delegated parser
    /// rejects are silently dropped; every remaining record is appended to
    /// its selector's bucket in line order.
    pub fn new_from_raw(raw: &str) -> (r: Result<EvmSelectors, Error>)
        ensures
            (match loaded(raw.spec_bytes()) {
                Ok(m) => r matches Ok(reg) && reg.wf() && reg@ == m,
                Err(e) => r == Err::<EvmSelectors, Error>(e),
            }),
    {
        let b: &[u8] = raw.as_bytes();
        let segs = split_line_slices(b);
        let ghost ls = split_lines(b@);
        let mut reg = EvmSelectors::new();
        let mut i: usize = 0;
        while i < segs.len()
            invariant
                i <= segs@.len(),
                b@ == raw.spec_bytes(),
                ls == split_lines(b@),
                ls == segs.deep_view(),
                segs@.len() == ls.len(),
                reg.wf(),
                load_lines(ls, 0, Map::<Seq<u8>, Seq<Function>>::empty()) == load_lines(
                    ls,
                    i as int,
                    reg@,
                ),
            decreases segs@.len() - i,
        {
            let line: &[u8] = segs[i];
            proof {
                assert(ls[i as int] =~= line@);
            }
            match line_parse_bytes(line) {
                Err(e) => {
                    proof {
                        assert(load_lines(ls, i as int, reg@) == Err::<
                            Map<Seq<u8>, Seq<Function>>,
                            Error,
                        >(e));
                        assert(b@ == raw.spec_bytes());
                        assert(loaded(raw.spec_bytes()) == Err::<
                            Map<Seq<u8>, Seq<Function>>,
                            Error,
                        >(e));
                    }
                    return Err(e);
                },
                Ok(None) => {
                    proof {
                        assert(load_lines(ls, i as int, reg@) == load_lines(
                            ls,
                            i as int + 1,
                            reg@,
                        ));
                    }
                    i = i + 1;
                },
                Ok(Some(entry)) => {
                    let (selector, function) = entry;
                    let ghost pre = reg@;
                    proof {
                        assert(load_lines(ls, i as int, pre) == load_lines(
                            ls,
                            i as int + 1,
                            bucket_insert(pre, selector@, function),
                        ));
                    }
                    reg.push(selector, function);
                    i = i + 1;
                },
            }
        }
        proof {
            assert(load_lines(ls, i as int, reg@) == Ok::<Map<Seq<u8>, Seq<Function>>, Error>(
                reg@,
            ));
        }
        Ok(reg)
    }
}

proof fn lemma_first_newline_unique(b: Seq<u8>, i: int, j: int)
    requires
        is_first_newline(b, i),
        is_first_newline(b, j),
    ensures
        i == j,
{
    if i < j {
        assert(b[i] != 0x0au8);
    } else if j < i {
        assert(b[j] != 0x0au8);
    }
}

/// Finds the position of the first newline at or after `from`.
fn find_newline_from(b: &[u8], from: usize) -> (r: Option<usize>)
    requires
        from <= b@.len(),
    ensures
        r matches Some(i) ==> from <= i < b@.len() && b@[i as int] == 0x0au8 && (forall|j: int|
            from <= j < i ==> #[trigger] b@[j] != 0x0au8),
        r is None ==> forall|j: int| from <= j < b@.len() ==> #[trigger] b@[j] != 0x0au8,
{
    let mut i: usize = from;
    while i < b.len()
        invariant
            from <= i <= b@.len(),
            forall|j: int| from <= j < i ==> #[trigger] b@[j] != 0x0au8,
        decreases b@.len() - i,
    {
        if *slice_index_get(b, i) == 0x0a {
            return Some(i);
        }
        i = i + 1;
    }
    None
}

/// Cuts the raw bytes into line slices, matching `split_lines`.
fn split_line_slices<'a>(b: &'a [u8]) -> (r: Vec<&'a [u8]>)
    ensures
        r.deep_view() == split_lines(b@),
{
    let mut segs: Vec<&[u8]> = Vec::new();
    let mut pos: usize = 0;
    proof {
        assert(b@.skip(0) =~= b@);
        assert(segs.deep_view() =~= Seq::<Seq<u8>>::empty());
        assert(segs.deep_view() + split_lines(b@.skip(0)) =~= split_lines(b@));
    }
    while pos < b.len()
        invariant
            pos <= b@.len(),
            split_lines(b@) == segs.deep_view() + split_lines(b@.skip(pos as int)),
        decreases b@.len() - pos,
    {
        let ghost rest = b@.skip(pos as int);
        let ghost segs0 = segs.deep_view();
        match find_newline_from(b, pos) {
            Some(nl) => {
                let seg = slice_subrange(b, pos, nl);
                segs.push(seg);
                proof {
                    assert(forall|k: int| 0 <= k < rest.len() ==> rest[k] == b@[k + pos]);
                    assert(is_first_newline(rest, nl - pos));
                    assert(has_newline(rest));
                    lemma_first_newline_unique(rest, nl - pos, first_newline(rest));
                    assert(split_lines(rest) == seq![rest.take(nl - pos)] + split_lines(
                        rest.skip(nl - pos + 1),
                    ));
                    assert(seg@ =~= rest.take(nl - pos));
                    assert(segs.deep_view() =~~= segs0.push(seg@));
                    assert(b@.skip(nl + 1) =~= rest.skip(nl - pos + 1));
                    assert(segs.deep_view() + split_lines(b@.skip(nl + 1)) =~= split_lines(b@));
                }
                pos = nl + 1;
            },
            None => {
                let seg = slice_subrange(b, pos, b.len());
                segs.push(seg);
                proof {
                    assert(rest.len() > 0);
                    assert(forall|k: int| 0 <= k < rest.len() ==> rest[k] == b@[k + pos]);
                    if has_newline(rest) {
                        let w = first_newline(rest);
                        assert(is_first_newline(rest, w));
                        assert(false);
                    }
                    assert(split_lines(rest) == seq![rest]);
                    assert(seg@ =~= rest);
                    assert(segs.deep_view() =~~= segs0.push(seg@));
                    assert(b@.skip(b@.len() as int) =~= Seq::<u8>::empty());
                    assert(segs.deep_view() + split_lines(b@.skip(b@.len() as int)) =~= split_lines(
                        b@,
                    ));
                }
                pos = b.len();
            },
        }
    }
    proof {
        assert(b@.skip(pos as int) =~= Seq::<u8>::empty());
        assert(split_lines(b@) =~= segs.deep_view());
    }
    segs
}

/// Pushing then looking up: after one `bucket_insert`, the key's bucket is
/// the bucket that was there before (empty for a new key) with the pushed
/// function appended, and every other key's bucket is untouched. Through
/// the contracts of `push` and `get`, a `push` followed by a `get` returns
/// the pushed entry appended after any existing entries for that selector.
pub proof fn lemma_push_then_get(m: Map<Seq<u8>, Seq<Function>>, key: Seq<u8>, function: Function)
    ensures
        bucket_insert(m, key, function).contains_key(key),
        bucket_insert(m, key, function)[key] == (if m.contains_key(key) {
            m[key]
        } else {
            Seq::<Function>::empty()
        }).push(function),
        forall|k: Seq<u8>|
            k != key ==> (bucket_insert(m, key, function).contains_key(k) == m.contains_key(k)),
        forall|k: Seq<u8>|
            k != key && m.contains_key(k) ==> bucket_insert(m, key, function)[k] == m[k],
{
    if !m.contains_key(key) {
        assert(Seq::<Function>::empty().push(function) =~= seq![function]);
    }
}

/// Collision handling: two records carrying the same selector land in that
/// selector's bucket in input order: inserting `f1` and then `f2` leaves
/// the bucket that was there before (empty for a new selector) extended by
/// `f1` followed by `f2`.
pub proof fn lemma_collision_order(
    m: Map<Seq<u8>, Seq<Function>>,
    key: Seq<u8>,
    f1: Function,
    f2: Function,
)
    ensures
        bucket_insert(bucket_insert(m, key, f1), key, f2)[key] == (if m.contains_key(key) {
            m[key]
        } else {
            Seq::<Function>::empty()
        }) + seq![f1, f2],
{
    let prior = if m.contains_key(key) {
        m[key]
    } else {
        Seq::<Function>::empty()
    };
    lemma_push_then_get(m, key, f1);
    lemma_push_then_get(bucket_insert(m, key, f1), key, f2);
    assert(prior.push(f1).push(f2) =~= prior + seq![f1, f2]);
}

/// Idempotence of loading: parsing the same raw text twice produces
/// registries with identical mapping contents, since the loaded mapping is
/// a function of the text alone.
pub proof fn lemma_load_deterministic(r1: &EvmSelectors, r2: &EvmSelectors, b: Seq<u8>)
    requires
        loaded(b) == Ok::<Map<Seq<u8>, Seq<Function>>, Error>(r1@),
        loaded(b) == Ok::<Map<Seq<u8>, Seq<Function>>, Error>(r2@),
    ensures
        r1@ == r2@,
{
}

} // verus!
