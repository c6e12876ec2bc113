//! The layer-merge engine: replays layer tarballs over a virtual filesystem,
//! honouring whiteouts, and emits the merged layer.
use crate::archive::{
    copy_bytes, headers_complete, read_members, tar_image, tar_members, views, write_members,
    EntryView, TarEntry, HEADER_LEN,
};
use crate::error::SquashError;
use crate::paths::{
    compare_bytes, components, components_of, has_parent_ref, is_absolute, is_strictly_under,
    is_unsafe, join, join_prefix, lemma_bytes_deep_view, lemma_lex_asymmetric,
    lemma_components_of_join, lemma_join_first, lemma_lex_irreflexive, lemma_lex_total, lemma_lex_transitive,
    lemma_scan_well_formed, lex_lt, plain, same_bytes, strictly_under, SLASH,
};
use crate::text::{chars_of, decimal, hex_of, lemma_hex_len, occurs_at, push_decimal, push_hex, push_str, string_of};
use vstd::string::StrSliceExecFns;
use vstd::prelude::*;

verus! {

/// Paths longer than this many bytes are not written to the merged layer.
pub const MAX_PATH_LEN: usize = 255;

/// The name prefix `.wh.` that marks a whiteout.
pub open spec fn whiteout_prefix() -> Seq<u8> {
    seq![46u8, 119u8, 104u8, 46u8]
}

/// The name `.wh..wh..opq` of an opaque whiteout.
pub open spec fn opaque_marker() -> Seq<u8> {
    seq![46u8, 119u8, 104u8, 46u8, 46u8, 119u8, 104u8, 46u8, 46u8, 111u8, 112u8, 113u8]
}

pub open spec fn is_whiteout_name(name: Seq<u8>) -> bool {
    name.len() >= 4 && name.subrange(0, 4) == whiteout_prefix()
}

/// What a layer member does to the filesystem.
pub enum Action {
    /// Nothing: the member names the root itself.
    Ignore,
    /// Nothing, and the member is reported: its path is absolute or climbs
    /// out with `..`.
    Unsafe,
    /// Hides everything below the directory.
    ClearDir(Seq<u8>),
    /// Marks the path deleted.
    Delete(Seq<u8>),
    /// Stores the member at the path.
    Put(Seq<u8>),
}

/// The action of a member with path `p`; the paths it carries are normalized.
pub open spec fn action(p: Seq<u8>) -> Action {
    let cs = components(p);
    if is_unsafe(p) {
        Action::Unsafe
    } else if cs.len() == 0 {
        Action::Ignore
    } else if cs.last() == opaque_marker() {
        Action::ClearDir(join(cs.drop_last()))
    } else if is_whiteout_name(cs.last()) {
        Action::Delete(join(cs.drop_last().push(cs.last().subrange(4, cs.last().len() as int))))
    } else {
        Action::Put(join(cs))
    }
}

/// A stored member: its header block and contents.
pub type Content = (Seq<u8>, Seq<u8>);

/// The virtual filesystem: each normalized path maps to the member stored
/// there, or to `None` where a whiteout deleted it.
pub type Fs = Map<Seq<u8>, Option<Content>>;

/// `fs` without anything strictly inside directory `d`.
pub open spec fn cleared(fs: Fs, d: Seq<u8>) -> Fs {
    Map::new(|q: Seq<u8>| fs.contains_key(q) && !strictly_under(q, d), |q: Seq<u8>| fs[q])
}

/// The filesystem after member `m`.
pub open spec fn apply(fs: Fs, m: EntryView) -> Fs {
    match action(m.path) {
        Action::ClearDir(d) => cleared(fs, d),
        Action::Delete(p) => fs.insert(p, None),
        Action::Put(p) => fs.insert(p, Some((m.header, m.data))),
        _ => fs,
    }
}

/// The filesystem after the members `ms`, in order.
pub open spec fn replay(fs: Fs, ms: Seq<EntryView>) -> Fs
    decreases ms.len(),
{
    if ms.len() == 0 {
        fs
    } else {
        apply(replay(fs, ms.drop_last()), ms.last())
    }
}

/// The members of the layer tarballs `tars`, oldest layer first, or `None`
/// where one of them cannot be read.
pub open spec fn layer_members(tars: Seq<Seq<u8>>) -> Option<Seq<EntryView>>
    decreases tars.len(),
{
    if tars.len() == 0 {
        Some(seq![])
    } else {
        match (layer_members(tars.drop_last()), tar_members(tars.last())) {
            (Some(a), Some(b)) => Some(a + b),
            _ => None,
        }
    }
}

/// The paths of the members of `ms` that are skipped as unsafe, in order.
pub open spec fn unsafe_paths(ms: Seq<EntryView>) -> Seq<Seq<u8>>
    decreases ms.len(),
{
    if ms.len() == 0 {
        seq![]
    } else if is_unsafe(ms.last().path) {
        unsafe_paths(ms.drop_last()).push(ms.last().path)
    } else {
        unsafe_paths(ms.drop_last())
    }
}

/// The exec form of [`Action`].
pub enum Change {
    Ignore,
    Unsafe,
    ClearDir(Vec<u8>),
    Delete(Vec<u8>),
    Put(Vec<u8>),
}

impl View for Change {
    type V = Action;

    open spec fn view(&self) -> Action {
        match self {
            Change::Ignore => Action::Ignore,
            Change::Unsafe => Action::Unsafe,
            Change::ClearDir(d) => Action::ClearDir(d@),
            Change::Delete(p) => Action::Delete(p@),
            Change::Put(p) => Action::Put(p@),
        }
    }
}

fn is_opaque_name(name: &Vec<u8>) -> (r: bool)
    ensures
        r == (name@ == opaque_marker()),
{
    let marker: [u8; 12] = [46, 119, 104, 46, 46, 119, 104, 46, 46, 111, 112, 113];
    assert(marker@ =~= opaque_marker());
    same_bytes(name.as_slice(), &marker)
}

fn has_whiteout_prefix(name: &Vec<u8>) -> (r: bool)
    ensures
        r == is_whiteout_name(name@),
{
    if name.len() < 4 {
        return false;
    }
    let r = name[0] == 46 && name[1] == 119 && name[2] == 104 && name[3] == 46;
    assert(r == (name@.subrange(0, 4) =~= whiteout_prefix()));
    r
}

/// Classifies a member by its path.
pub fn classify(path: &[u8]) -> (r: Change)
    ensures
        r@ == action(path@),
{
    let cs = components_of(path);
    let ghost c = components(path@);
    if is_absolute(path) || has_parent_ref(&cs) {
        return Change::Unsafe;
    }
    if cs.len() == 0 {
        return Change::Ignore;
    }
    let n = cs.len() - 1;
    let name = &cs[n];
    assert(name@ == c.last());
    assert(c.drop_last() =~= c.subrange(0, n as int));
    let parent = join_prefix(&cs, n);
    if is_opaque_name(name) {
        Change::ClearDir(parent)
    } else if has_whiteout_prefix(name) {
        let ghost target = c.drop_last().push(c.last().subrange(4, c.last().len() as int));
        assert(target.drop_last() =~= c.drop_last());
        let mut out = parent;
        if n > 0 {
            out.push(SLASH);
        }
        let mut k: usize = 4;
        while k < name.len()
            invariant
                4 <= k <= name@.len(),
                name@ == c.last(),
                n == c.len() - 1,
                n > 0 ==> out@ == join(c.drop_last()).push(SLASH) + name@.subrange(4, k as int),
                n == 0 ==> out@ == name@.subrange(4, k as int),
            decreases name@.len() - k,
        {
            out.push(name[k]);
            k = k + 1;
            assert(name@.subrange(4, k as int) =~= name@.subrange(4, k - 1).push(name@[k - 1]));
        }
        assert(out@ =~= join(target));
        Change::Delete(out)
    } else {
        assert(c.subrange(0, c.len() as int) =~= c);
        Change::Put(join_prefix(&cs, cs.len()))
    }
}


/// A member kept by the virtual filesystem.
pub struct Stored {
    pub header: Vec<u8>,
    pub data: Vec<u8>,
}

/// One path of the virtual filesystem and what it holds; `None` is a
/// deletion left by a whiteout.
pub struct Slot {
    pub path: Vec<u8>,
    pub entry: Option<Stored>,
}

pub open spec fn stored_value(e: Option<Stored>) -> Option<Content> {
    match e {
        Some(s) => Some((s.header@, s.data@)),
        None => None,
    }
}

/// The slots are strictly sorted by path, each header block is whole, and
/// the slots hold exactly the map `fs`.
pub open spec fn represents(v: Seq<Slot>, fs: Fs) -> bool {
    &&& forall|i: int, j: int| 0 <= i < j < v.len() ==> lex_lt(#[trigger] v[i].path@, #[trigger] v[j].path@)
    &&& forall|i: int|
        0 <= i < v.len() ==> fs.contains_key(#[trigger] v[i].path@) && fs[v[i].path@] == stored_value(v[i].entry)
    &&& forall|i: int| 0 <= i < v.len() && (#[trigger] v[i]).entry is Some ==> v[i].entry->0.header@.len() == HEADER_LEN
    &&& forall|p: Seq<u8>| #[trigger] fs.contains_key(p) ==> exists|i: int| 0 <= i < v.len() && v[i].path@ == p
}

/// The merge engine's working state.
pub struct VirtualFilesystem {
    slots: Vec<Slot>,
    fs: Ghost<Fs>,
}

impl View for VirtualFilesystem {
    type V = Fs;

    closed spec fn view(&self) -> Fs {
        self.fs@
    }
}

fn copy_entry(e: &Option<Stored>) -> (r: Option<Stored>)
    ensures
        stored_value(r) == stored_value(*e),
        r is Some <==> e is Some,
        r is Some ==> r->0.header@ == e->0.header@,
{
    match e {
        Some(s) => Some(Stored { header: copy_bytes(&s.header), data: copy_bytes(&s.data) }),
        None => None,
    }
}

impl VirtualFilesystem {
    pub closed spec fn wf(&self) -> bool {
        represents(self.slots@, self.fs@)
    }

    /// An empty filesystem.
    pub fn new() -> (r: Self)
        ensures
            r.wf(),
            r@ == Map::<Seq<u8>, Option<Content>>::empty(),
    {
        VirtualFilesystem { slots: Vec::new(), fs: Ghost(Map::empty()) }
    }

    /// The index of the first slot whose path is not before `p`.
    fn locate(&self, p: &[u8]) -> (r: usize)
        requires
            self.wf(),
        ensures
            r <= self.slots@.len(),
            forall|i: int| 0 <= i < r ==> lex_lt(#[trigger] self.slots@[i].path@, p@),
            forall|i: int| r <= i < self.slots@.len() ==> !lex_lt(#[trigger] self.slots@[i].path@, p@),
    {
        let ghost v = self.slots@;
        let mut lo: usize = 0;
        let mut hi: usize = self.slots.len();
        while lo < hi
            invariant
                v == self.slots@,
                self.wf(),
                lo <= hi <= v.len(),
                forall|i: int| 0 <= i < lo ==> lex_lt(#[trigger] v[i].path@, p@),
                forall|i: int| hi <= i < v.len() ==> !lex_lt(#[trigger] v[i].path@, p@),
            decreases hi - lo,
        {
            let mid = lo + (hi - lo) / 2;
            match compare_bytes(self.slots[mid].path.as_slice(), p) {
                core::cmp::Ordering::Less => {
                    assert forall|i: int| 0 <= i < mid + 1 implies lex_lt(#[trigger] v[i].path@, p@) by {
                        if i < mid {
                            lemma_lex_transitive(v[i].path@, v[mid as int].path@, p@);
                        }
                    }
                    lo = mid + 1;
                },
                _ => {
                    assert forall|i: int| mid <= i < v.len() implies !lex_lt(#[trigger] v[i].path@, p@) by {
                        if i > mid && lex_lt(v[i].path@, p@) {
                            lemma_lex_transitive(v[mid as int].path@, v[i].path@, p@);
                        }
                    }
                    hi = mid;
                },
            }
        }
        lo
    }

    /// Stores `entry` at path `p`, replacing what was there.
    fn set(&mut self, p: Vec<u8>, entry: Option<Stored>)
        requires
            old(self).wf(),
            entry is Some ==> entry->0.header@.len() == HEADER_LEN,
        ensures
            final(self).wf(),
            final(self)@ == old(self)@.insert(p@, stored_value(entry)),
    {
        let ghost v = self.slots@;
        let ghost fs = self.fs@;
        let ghost val = stored_value(entry);
        let pos = self.locate(p.as_slice());
        let found = pos < self.slots.len() && same_bytes(self.slots[pos].path.as_slice(), p.as_slice());
        let ghost pv = p@;
        let ghost new_fs = fs.insert(pv, val);
        if found {
            self.slots.set(pos, Slot { path: p, entry });
            let ghost w = self.slots@;
            assert forall|i: int, j: int| 0 <= i < j < w.len() implies lex_lt(#[trigger] w[i].path@, #[trigger] w[j].path@) by {
                assert(v[i].path@ == w[i].path@ || i == pos);
                assert(v[j].path@ == w[j].path@ || j == pos);
                assert(v[pos as int].path@ == pv);
            }
            assert forall|i: int| 0 <= i < w.len() implies new_fs.contains_key(#[trigger] w[i].path@) && new_fs[w[i].path@] == stored_value(w[i].entry) by {
                if i != pos {
                    assert(w[i] == v[i]);
                    if v[i].path@ == pv {
                        lemma_lex_irreflexive(pv);
                        if i < pos {
                            assert(lex_lt(v[i].path@, v[pos as int].path@));
                        } else {
                            assert(lex_lt(v[pos as int].path@, v[i].path@));
                        }
                    }
                }
            }
            assert forall|q: Seq<u8>| #[trigger] new_fs.contains_key(q) implies exists|i: int| 0 <= i < w.len() && w[i].path@ == q by {
                if q == pv {
                    assert(w[pos as int].path@ == q);
                } else {
                    let i = choose|i: int| 0 <= i < v.len() && v[i].path@ == q;
                    assert(w[i].path@ == q);
                }
            }
            self.fs = Ghost(new_fs);
        } else {
            self.slots.insert(pos, Slot { path: p, entry });
            let ghost w = self.slots@;
            assert forall|k: int| pos <= k < v.len() implies lex_lt(pv, #[trigger] v[k].path@) by {
                if v[k].path@ == pv {
                    assert(k != pos);
                    assert(lex_lt(v[pos as int].path@, v[k].path@));
                }
                lemma_lex_total(pv, v[k].path@);
            }
            assert forall|i: int, j: int| 0 <= i < j < w.len() implies lex_lt(#[trigger] w[i].path@, #[trigger] w[j].path@) by {
                if i < pos && j < pos {
                    assert(w[i] == v[i] && w[j] == v[j]);
                } else if i < pos && j == pos {
                    assert(w[i] == v[i]);
                } else if i < pos {
                    assert(w[i] == v[i] && w[j] == v[j - 1]);
                } else if i == pos {
                    assert(w[j] == v[j - 1]);
                } else {
                    assert(w[i] == v[i - 1] && w[j] == v[j - 1]);
                }
            }
            assert forall|i: int| 0 <= i < w.len() implies new_fs.contains_key(#[trigger] w[i].path@) && new_fs[w[i].path@] == stored_value(w[i].entry) by {
                if i < pos {
                    assert(w[i] == v[i]);
                    lemma_lex_irreflexive(pv);
                } else if i > pos {
                    assert(w[i] == v[i - 1]);
                    lemma_lex_irreflexive(pv);
                }
            }
            assert forall|i: int| 0 <= i < w.len() && (#[trigger] w[i]).entry is Some implies w[i].entry->0.header@.len() == HEADER_LEN by {
                if i < pos {
                    assert(w[i] == v[i]);
                } else if i > pos {
                    assert(w[i] == v[i - 1]);
                }
            }
            assert forall|q: Seq<u8>| #[trigger] new_fs.contains_key(q) implies exists|i: int| 0 <= i < w.len() && w[i].path@ == q by {
                if q == pv {
                    assert(w[pos as int].path@ == q);
                } else {
                    let i = choose|i: int| 0 <= i < v.len() && v[i].path@ == q;
                    if i < pos {
                        assert(w[i].path@ == q);
                    } else {
                        assert(w[i + 1].path@ == q);
                    }
                }
            }
            self.fs = Ghost(new_fs);
        }
    }

    /// Removes everything strictly inside directory `d`.
    fn clear_under(&mut self, d: &Vec<u8>)
        requires
            old(self).wf(),
        ensures
            final(self).wf(),
            final(self)@ == cleared(old(self)@, d@),
    {
        let ghost v = self.slots@;
        let ghost fs = self.fs@;
        let ghost new_fs = cleared(fs, d@);
        let mut kept: Vec<Slot> = Vec::new();
        let ghost mut idx: Seq<int> = seq![];
        let mut i: usize = 0;
        while i < self.slots.len()
            invariant
                v == self.slots@,
                represents(v, fs),
                i <= v.len(),
                kept@.len() == idx.len(),
                forall|k: int| 0 <= k < idx.len() ==> 0 <= #[trigger] idx[k] < i,
                forall|k: int, l: int| 0 <= k < l < idx.len() ==> #[trigger] idx[k] < #[trigger] idx[l],
                forall|k: int|
                    0 <= k < idx.len() ==> (#[trigger] kept@[k]).path@ == v[idx[k]].path@ && stored_value(kept@[k].entry)
                        == stored_value(v[idx[k]].entry) && (kept@[k].entry is Some ==> kept@[k].entry->0.header@
                        == v[idx[k]].entry->0.header@) && !strictly_under(kept@[k].path@, d@),
                forall|j: int|
                    0 <= j < i && !strictly_under(#[trigger] v[j].path@, d@) ==> exists|k: int|
                        0 <= k < idx.len() && idx[k] == j,
            decreases v.len() - i,
        {
            let ghost old_idx = idx;
            let slot = &self.slots[i];
            let keep = !is_strictly_under(slot.path.as_slice(), d.as_slice());
            if keep {
                let copy = Slot { path: copy_bytes(&slot.path), entry: copy_entry(&slot.entry) };
                kept.push(copy);
                proof {
                    let k = idx.len() as int;
                    idx = idx.push(i as int);
                    assert(idx[k] == i);
                }
            }
            i = i + 1;
            proof {
                assert forall|j: int| 0 <= j < i && !strictly_under(#[trigger] v[j].path@, d@) implies exists|k: int|
                    0 <= k < idx.len() && idx[k] == j by {
                    if j == i - 1 {
                        assert(idx[idx.len() - 1] == j);
                    } else {
                        let k = choose|k: int| 0 <= k < old_idx.len() && old_idx[k] == j;
                        assert(idx[k] == j);
                    }
                }
            }
        }
        let ghost w = kept@;
        assert forall|a: int, b: int| 0 <= a < b < w.len() implies lex_lt(#[trigger] w[a].path@, #[trigger] w[b].path@) by {
            assert(idx[a] < idx[b]);
        }
        assert forall|a: int| 0 <= a < w.len() && (#[trigger] w[a]).entry is Some implies w[a].entry->0.header@.len() == HEADER_LEN by {
            assert(v[idx[a]].entry is Some);
        }
        assert forall|q: Seq<u8>| #[trigger] new_fs.contains_key(q) implies exists|a: int| 0 <= a < w.len() && w[a].path@ == q by {
            let j = choose|j: int| 0 <= j < v.len() && v[j].path@ == q;
            let a = choose|a: int| 0 <= a < idx.len() && idx[a] == j;
            assert(w[a].path@ == q);
        }
        self.slots = kept;
        self.fs = Ghost(new_fs);
    }
}


/// The members of `out` are sorted strictly by path.
pub open spec fn sorted_by_path(out: Seq<EntryView>) -> bool {
    forall|i: int, j: int| 0 <= i < j < out.len() ==> lex_lt(#[trigger] out[i].path, #[trigger] out[j].path)
}

/// `out` lists, sorted by path, every member present in `fs` whose path
/// fits in [`MAX_PATH_LEN`] bytes, with the header and contents stored there.
pub open spec fn emits(fs: Fs, out: Seq<EntryView>) -> bool {
    &&& sorted_by_path(out)
    &&& forall|i: int|
        0 <= i < out.len() ==> (#[trigger] out[i]).path.len() <= MAX_PATH_LEN && fs.contains_key(out[i].path)
            && fs[out[i].path] == Some((out[i].header, out[i].data))
    &&& forall|p: Seq<u8>|
        #[trigger] fs.contains_key(p) && fs[p] is Some && p.len() <= MAX_PATH_LEN ==> exists|i: int|
            0 <= i < out.len() && out[i].path == p
}

/// `long` lists every path present in `fs` that is longer than
/// [`MAX_PATH_LEN`] bytes, and nothing else.
pub open spec fn overlong(fs: Fs, long: Seq<Seq<u8>>) -> bool {
    &&& forall|k: int|
        0 <= k < long.len() ==> (#[trigger] long[k]).len() > MAX_PATH_LEN && fs.contains_key(long[k])
            && fs[long[k]] is Some
    &&& forall|p: Seq<u8>|
        #[trigger] fs.contains_key(p) && fs[p] is Some && p.len() > MAX_PATH_LEN ==> exists|k: int|
            0 <= k < long.len() && long[k] == p
}

/// The members of the merged layer for filesystem `fs`.
pub open spec fn emission(fs: Fs) -> Seq<EntryView> {
    choose|out: Seq<EntryView>| emits(fs, out)
}

/// `x` is one of the members of `b`.
#[verifier::opaque]
pub open spec fn has(b: Seq<EntryView>, x: EntryView) -> bool {
    exists|j: int| 0 <= j < b.len() && b[j] == x
}

/// Every member of `a` is one of `b`.
pub open spec fn within(a: Seq<EntryView>, b: Seq<EntryView>) -> bool {
    forall|i: int| 0 <= i < a.len() ==> has(b, #[trigger] a[i])
}

proof fn lemma_within_rest(a: Seq<EntryView>, b: Seq<EntryView>)
    requires
        sorted_by_path(a),
        sorted_by_path(b),
        a.len() > 0,
        b.len() > 0,
        a[0] == b[0],
        within(a, b),
    ensures
        within(a.drop_first(), b.drop_first()),
{
    let a2 = a.drop_first();
    let b2 = b.drop_first();
    assert forall|i: int| 0 <= i < a2.len() implies has(b2, #[trigger] a2[i]) by {
        assert(a2[i] == a[i + 1]);
        assert(has(b, a[i + 1]));
        reveal(has);
        let j = choose|j: int| 0 <= j < b.len() && b[j] == a[i + 1];
        assert(lex_lt(a[0].path, a[i + 1].path));
        if j == 0 {
            lemma_lex_irreflexive(a[0].path);
        }
        assert(b2[j - 1] == a2[i]);
    }
}

proof fn lemma_sorted_same(a: Seq<EntryView>, b: Seq<EntryView>)
    requires
        sorted_by_path(a),
        sorted_by_path(b),
        within(a, b),
        within(b, a),
    ensures
        a == b,
    decreases a.len(),
{
    if a.len() == 0 {
        if b.len() > 0 {
            assert(has(a, b[0]));
            reveal(has);
        }
        assert(a =~= b);
    } else {
        assert(has(b, a[0]));
        reveal(has);
        assert(b.len() > 0);
        assert(has(a, b[0]));
        let j = choose|j: int| 0 <= j < b.len() && b[j] == a[0];
        let k = choose|k: int| 0 <= k < a.len() && a[k] == b[0];
        if j > 0 {
            assert(lex_lt(b[0].path, b[j].path));
            if k > 0 {
                assert(lex_lt(a[0].path, a[k].path));
                lemma_lex_asymmetric(a[0].path, a[k].path);
            } else {
                lemma_lex_irreflexive(a[0].path);
            }
        }
        lemma_within_rest(a, b);
        lemma_within_rest(b, a);
        lemma_sorted_same(a.drop_first(), b.drop_first());
        assert(a =~= seq![a[0]] + a.drop_first());
        assert(b =~= seq![b[0]] + b.drop_first());
    }
}

/// The merged layer's members are determined by the filesystem: any two
/// listings that meet [`emits`] are the same sequence.
pub proof fn lemma_emits_unique(fs: Fs, a: Seq<EntryView>, b: Seq<EntryView>)
    requires
        emits(fs, a),
        emits(fs, b),
    ensures
        a == b,
{
    assert forall|i: int| 0 <= i < a.len() implies has(b, #[trigger] a[i]) by {
        assert(fs.contains_key(a[i].path));
        let j = choose|j: int| 0 <= j < b.len() && b[j].path == a[i].path;
        assert(b[j] == a[i]);
        reveal(has);
    }
    assert forall|j: int| 0 <= j < b.len() implies has(a, #[trigger] b[j]) by {
        assert(fs.contains_key(b[j].path));
        let i = choose|i: int| 0 <= i < a.len() && a[i].path == b[j].path;
        assert(a[i] == b[j]);
        reveal(has);
    }
    lemma_sorted_same(a, b);
}

pub proof fn lemma_emission(fs: Fs, out: Seq<EntryView>)
    requires
        emits(fs, out),
    ensures
        emission(fs) == out,
{
    lemma_emits_unique(fs, emission(fs), out);
}

impl VirtualFilesystem {
    /// Applies member `m`; returns whether it was skipped as unsafe.
    pub fn apply_member(&mut self, m: &TarEntry) -> (skipped: bool)
        requires
            old(self).wf(),
            m.header@.len() == HEADER_LEN,
        ensures
            final(self).wf(),
            final(self)@ == apply(old(self)@, m@),
            skipped == is_unsafe(m.path@),
    {
        match classify(m.path.as_slice()) {
            Change::Unsafe => true,
            Change::Ignore => false,
            Change::ClearDir(d) => {
                self.clear_under(&d);
                false
            },
            Change::Delete(p) => {
                self.set(p, None);
                false
            },
            Change::Put(p) => {
                let stored = Stored { header: copy_bytes(&m.header), data: copy_bytes(&m.data) };
                self.set(p, Some(stored));
                false
            },
        }
    }

    /// The members of the merged layer, and the paths left out of it for
    /// their length.
    pub fn listing(&self) -> (r: (Vec<TarEntry>, Vec<Vec<u8>>))
        requires
            self.wf(),
        ensures
            emits(self@, views(r.0@)),
            headers_complete(views(r.0@)),
            overlong(self@, r.1.deep_view()),
    {
        let ghost v = self.slots@;
        let ghost fs = self.fs@;
        let mut out: Vec<TarEntry> = Vec::new();
        let mut long: Vec<Vec<u8>> = Vec::new();
        let ghost mut idx: Seq<int> = seq![];
        let mut i: usize = 0;
        assert(views(out@) =~= Seq::<EntryView>::empty());
        assert(long.deep_view() =~= Seq::<Seq<u8>>::empty());
        while i < self.slots.len()
            invariant
                v == self.slots@,
                represents(v, fs),
                i <= v.len(),
                views(out@).len() == idx.len(),
                forall|k: int| 0 <= k < idx.len() ==> 0 <= #[trigger] idx[k] < i,
                forall|k: int, l: int| 0 <= k < l < idx.len() ==> #[trigger] idx[k] < #[trigger] idx[l],
                forall|k: int|
                    0 <= k < idx.len() ==> (#[trigger] views(out@)[k]).path == v[idx[k]].path@
                        && v[idx[k]].entry is Some && stored_value(v[idx[k]].entry) == Some(
                        (views(out@)[k].header, views(out@)[k].data),
                    ) && views(out@)[k].path.len() <= MAX_PATH_LEN,
                forall|j: int|
                    0 <= j < i && (#[trigger] v[j]).entry is Some && v[j].path@.len() <= MAX_PATH_LEN
                        ==> exists|k: int| 0 <= k < idx.len() && idx[k] == j,
                forall|k: int|
                    0 <= k < long.deep_view().len() ==> (#[trigger] long.deep_view()[k]).len() > MAX_PATH_LEN
                        && fs.contains_key(long.deep_view()[k]) && fs[long.deep_view()[k]] is Some,
                forall|j: int|
                    0 <= j < i && (#[trigger] v[j]).entry is Some && v[j].path@.len() > MAX_PATH_LEN
                        ==> exists|k: int| 0 <= k < long.deep_view().len() && long.deep_view()[k] == v[j].path@,
            decreases v.len() - i,
        {
            let ghost old_idx = idx;
            let ghost old_out = views(out@);
            let ghost old_long = long.deep_view();
            let slot = &self.slots[i];
            match &slot.entry {
                Some(e) => {
                    if slot.path.len() <= MAX_PATH_LEN {
                        let entry = TarEntry {
                            path: copy_bytes(&slot.path),
                            header: copy_bytes(&e.header),
                            data: copy_bytes(&e.data),
                        };
                        out.push(entry);
                        proof {
                            assert(views(out@) =~= old_out.push(entry@));
                            let k = idx.len() as int;
                            idx = idx.push(i as int);
                            assert(idx[k] == i);
                        }
                    } else {
                        let p = copy_bytes(&slot.path);
                        proof { lemma_bytes_deep_view(&p); }
                        long.push(p);
                        assert(long.deep_view() =~= old_long.push(v[i as int].path@));
                    }
                },
                None => {},
            }
            i = i + 1;
            proof {
                assert forall|j: int|
                    0 <= j < i && (#[trigger] v[j]).entry is Some && v[j].path@.len() <= MAX_PATH_LEN implies exists|k: int|
                    0 <= k < idx.len() && idx[k] == j by {
                    if j == i - 1 {
                        assert(idx[idx.len() - 1] == j);
                    } else {
                        let k = choose|k: int| 0 <= k < old_idx.len() && old_idx[k] == j;
                        assert(idx[k] == j);
                    }
                }
                assert forall|j: int|
                    0 <= j < i && (#[trigger] v[j]).entry is Some && v[j].path@.len() > MAX_PATH_LEN implies exists|k: int|
                    0 <= k < long.deep_view().len() && long.deep_view()[k] == v[j].path@ by {
                    if j == i - 1 {
                        assert(long.deep_view()[long.deep_view().len() - 1] == v[j].path@);
                    } else {
                        let k = choose|k: int| 0 <= k < old_long.len() && old_long[k] == v[j].path@;
                        assert(long.deep_view()[k] == v[j].path@);
                    }
                }
            }
        }
        let ghost o = views(out@);
        assert forall|a: int, b: int| 0 <= a < b < o.len() implies lex_lt(#[trigger] o[a].path, #[trigger] o[b].path) by {
            assert(idx[a] < idx[b]);
        }
        assert forall|p: Seq<u8>|
            #[trigger] fs.contains_key(p) && fs[p] is Some && p.len() <= MAX_PATH_LEN implies exists|a: int|
            0 <= a < o.len() && o[a].path == p by {
            let j = choose|j: int| 0 <= j < v.len() && v[j].path@ == p;
            let a = choose|a: int| 0 <= a < idx.len() && idx[a] == j;
            assert(o[a].path == p);
        }
        assert forall|p: Seq<u8>|
            #[trigger] fs.contains_key(p) && fs[p] is Some && p.len() > MAX_PATH_LEN implies exists|k: int|
            0 <= k < long.deep_view().len() && long.deep_view()[k] == p by {
            let j = choose|j: int| 0 <= j < v.len() && v[j].path@ == p;
            assert(v[j].entry is Some);
        }
        assert forall|a: int| 0 <= a < o.len() implies (#[trigger] o[a]).header.len() == HEADER_LEN by {
            let j = idx[a];
            assert(0 <= j < v.len());
            assert(o[a].path == v[j].path@);
            assert(v[j].entry is Some);
            assert(v[j].entry->0.header@.len() == HEADER_LEN);
        }
        (out, long)
    }
}

/// The SHA-256 digest of `bytes`.
pub uninterp spec fn sha256_of(bytes: Seq<u8>) -> Seq<u8>;

/// Relies on sha2's `Sha256::digest`: the 32-byte SHA-256 digest of `bytes`.
#[verifier::external_body]
fn sha256(bytes: &[u8]) -> (r: Vec<u8>)
    ensures
        r@ == sha256_of(bytes@),
        r@.len() == 32,
{
    <sha2::Sha256 as sha2::Digest>::digest(bytes).to_vec()
}

/// The diff-id of a layer tarball: `sha256:` and the lowercase hex of its
/// SHA-256 digest.
pub open spec fn layer_digest(tar: Seq<u8>) -> Seq<char> {
    "sha256:"@ + hex_of(sha256_of(tar))
}

/// Computes the diff-id of the layer tarball `tar`.
pub fn calculate_layer_digest(tar: &[u8]) -> (r: String)
    ensures
        r@ == layer_digest(tar@),
        r@.len() == 71,
{
    let sum = sha256(tar);
    proof {
        reveal_strlit("sha256:");
        lemma_hex_len(sum@);
    }
    let mut out: Vec<char> = Vec::new();
    push_str(&mut out, "sha256:");
    push_hex(&mut out, sum.as_slice());
    string_of(out)
}

/// The filesystem that replaying `ms` over an empty one leaves.
pub open spec fn merged_fs(ms: Seq<EntryView>) -> Fs {
    replay(Map::empty(), ms)
}

/// Member `m` with its path normalized.
pub open spec fn normalized(m: EntryView) -> EntryView {
    EntryView { path: join(components(m.path)), header: m.header, data: m.data }
}

/// Action `a` removes something: a whiteout or an opaque whiteout.
pub open spec fn is_removal(a: Action) -> bool {
    a is ClearDir || a is Delete
}

/// The whiteouts and opaque whiteouts among `ms`, normalized, in replay order.
pub open spec fn removals(ms: Seq<EntryView>) -> Seq<EntryView>
    decreases ms.len(),
{
    if ms.len() == 0 {
        seq![]
    } else if is_removal(action(ms.last().path)) {
        removals(ms.drop_last()).push(normalized(ms.last()))
    } else {
        removals(ms.drop_last())
    }
}

/// The members of the layer merged from `ms`: where layers stay below it
/// (`keep_whiteouts`), the whiteouts of `ms` so that what they hide below
/// stays hidden, then the listing of what is present.
pub open spec fn merged_members(ms: Seq<EntryView>, keep_whiteouts: bool) -> Seq<EntryView> {
    if keep_whiteouts {
        removals(ms) + emission(merged_fs(ms))
    } else {
        emission(merged_fs(ms))
    }
}

/// The merged layer of the tarballs `tars`, oldest first, or `None` where one
/// cannot be read or the merged one cannot be written.
pub open spec fn merged_tar(tars: Seq<Seq<u8>>, keep_whiteouts: bool) -> Option<Seq<u8>> {
    match layer_members(tars) {
        Some(ms) => tar_image(merged_members(ms, keep_whiteouts)),
        None => None,
    }
}

/// The normalized copy of member `m` where it is a whiteout or an opaque
/// whiteout.
pub fn removal_member(m: &TarEntry) -> (r: Option<TarEntry>)
    ensures
        r is Some <==> is_removal(action(m.path@)),
        r matches Some(e) ==> e@ == normalized(m@),
{
    match classify(m.path.as_slice()) {
        Change::ClearDir(_) | Change::Delete(_) => {
            let cs = components_of(m.path.as_slice());
            assert(cs.deep_view().subrange(0, cs@.len() as int) =~= cs.deep_view());
            let path = join_prefix(&cs, cs.len());
            Some(TarEntry { path, header: copy_bytes(&m.header), data: copy_bytes(&m.data) })
        },
        _ => None,
    }
}

/// A merged layer and what was left out of it.
pub struct MergedLayer {
    /// The merged layer tarball.
    pub tar: Vec<u8>,
    /// Its diff-id.
    pub digest: String,
    /// Paths of members skipped as unsafe, in replay order.
    pub unsafe_paths: Vec<Vec<u8>>,
    /// Paths present in the result but too long to be written.
    pub long_paths: Vec<Vec<u8>>,
}

proof fn lemma_members_none_extends(tars: Seq<Seq<u8>>, i: int)
    requires
        0 <= i <= tars.len(),
        layer_members(tars.subrange(0, i)) is None,
    ensures
        layer_members(tars) is None,
    decreases tars.len(),
{
    if i < tars.len() {
        assert(tars.drop_last().subrange(0, i) =~= tars.subrange(0, i));
        lemma_members_none_extends(tars.drop_last(), i);
    } else {
        assert(tars.subrange(0, i) =~= tars);
    }
}

/// What a successful merge of the layer tarballs `tars`, oldest first, gives.
pub open spec fn merge_result(m: MergedLayer, tars: Seq<Seq<u8>>, keep_whiteouts: bool) -> bool {
    let ms = layer_members(tars).unwrap();
    &&& merged_tar(tars, keep_whiteouts) == Some(m.tar@)
    &&& m.digest@ == layer_digest(m.tar@)
    &&& m.digest@.len() == 71
    &&& m.unsafe_paths.deep_view() == unsafe_paths(ms)
    &&& overlong(merged_fs(ms), m.long_paths.deep_view())
}

/// Merges the layer tarballs `tars`, oldest first, into one layer;
/// `keep_whiteouts` where other layers stay below it.
pub fn merge_layer_tars(tars: &Vec<Vec<u8>>, keep_whiteouts: bool) -> (r: Result<MergedLayer, SquashError>)
    ensures
        merges(r, tars.deep_view(), keep_whiteouts),
{
    assert(tars.deep_view().subrange(0, tars.deep_view().len() as int) =~= tars.deep_view());
    merge_layers_from(tars, 0, keep_whiteouts)
}

/// Merges the layer tarballs `tars[start..]`, oldest first, into one layer;
/// `keep_whiteouts` where other layers stay below it.
pub fn merge_layers_from(tars: &Vec<Vec<u8>>, start: usize, keep_whiteouts: bool) -> (r: Result<MergedLayer, SquashError>)
    requires
        start <= tars@.len(),
    ensures
        merges(r, tars.deep_view().subrange(start as int, tars@.len() as int), keep_whiteouts),
{
    let ghost full = tars.deep_view();
    let ghost t = full.subrange(start as int, full.len() as int);
    let mut vfs = VirtualFilesystem::new();
    let mut skipped: Vec<Vec<u8>> = Vec::new();
    let mut removed: Vec<TarEntry> = Vec::new();
    let ghost mut ms: Seq<EntryView> = seq![];
    let mut i: usize = start;
    assert(views(removed@) =~= Seq::<EntryView>::empty());
    assert(full.subrange(start as int, start as int) =~= Seq::<Seq<u8>>::empty());
    assert(skipped.deep_view() =~= Seq::<Seq<u8>>::empty());
    while i < tars.len()
        invariant
            full == tars.deep_view(),
            t == full.subrange(start as int, full.len() as int),
            start <= i <= full.len(),
            layer_members(full.subrange(start as int, i as int)) == Some(ms),
            vfs.wf(),
            vfs@ == merged_fs(ms),
            skipped.deep_view() == unsafe_paths(ms),
            views(removed@) == removals(ms),
            headers_complete(views(removed@)),
        decreases full.len() - i,
    {
        proof { lemma_bytes_deep_view(&tars[i as int]); }
        assert(full.subrange(start as int, i + 1).drop_last() =~= full.subrange(start as int, i as int));
        let members = match read_members(tars[i].as_slice()) {
            Ok(es) => es,
            Err(e) => {
                proof {
                    assert(t.subrange(0, i + 1 - start) =~= full.subrange(start as int, i + 1));
                    lemma_members_none_extends(t, i + 1 - start);
                }
                return Err(SquashError::IoError(e));
            },
        };
        let ghost layer = views(members@);
        let ghost base = ms;
        let mut j: usize = 0;
        assert(layer.subrange(0, 0) =~= Seq::<EntryView>::empty());
        assert(base + layer.subrange(0, 0) =~= base);
        while j < members.len()
            invariant
                layer == views(members@),
                headers_complete(layer),
                j <= layer.len(),
                ms == base + layer.subrange(0, j as int),
                vfs.wf(),
                vfs@ == merged_fs(ms),
                skipped.deep_view() == unsafe_paths(ms),
                views(removed@) == removals(ms),
                headers_complete(views(removed@)),
            decreases layer.len() - j,
        {
            let m = &members[j];
            assert(layer[j as int] == m@);
            let ghost before = skipped.deep_view();
            let ghost next = ms.push(m@);
            assert(next.drop_last() =~= ms);
            let ghost removed_before = views(removed@);
            match removal_member(m) {
                Some(e) => {
                    removed.push(e);
                    assert(views(removed@) =~= removed_before.push(e@));
                },
                None => {},
            }
            if vfs.apply_member(m) {
                let p = copy_bytes(&m.path);
                proof { lemma_bytes_deep_view(&p); }
                skipped.push(p);
                assert(skipped.deep_view() =~= before.push(m.path@));
            }
            proof {
                ms = next;
                assert(base + layer.subrange(0, j + 1) =~= next);
            }
            j = j + 1;
        }
        assert(layer.subrange(0, layer.len() as int) =~= layer);
        i = i + 1;
    }
    let (listed, long) = vfs.listing();
    proof { lemma_emission(merged_fs(ms), views(listed@)); }
    let ghost listed_view = views(listed@);
    let out = if keep_whiteouts {
        let mut all = removed;
        let ghost first = views(all@);
        let mut rest = listed;
        all.append(&mut rest);
        assert(views(all@) =~= first + listed_view);
        all
    } else {
        listed
    };
    assert(views(out@) == merged_members(ms, keep_whiteouts));
    match write_members(&out) {
        Ok(tar) => {
            let digest = calculate_layer_digest(tar.as_slice());
            Ok(MergedLayer { tar, digest, unsafe_paths: skipped, long_paths: long })
        },
        Err(e) => Err(SquashError::IoError(e)),
    }
}


#[verifier::external_type_specification]
#[verifier::external_body]
pub struct ExPathBuf(std::path::PathBuf);

/// Relies on `PathBuf: Clone`, which copies a path; nothing more is claimed.
pub assume_specification[ <std::path::PathBuf as Clone>::clone ](p: &std::path::PathBuf) -> std::path::PathBuf;

/// A layer tarball on disk.
#[derive(Debug, Clone)]
pub struct LayerInfo {
    /// Content identifier, `sha256:<hex>`.
    pub digest: String,
    /// Size of the tarball in bytes.
    pub size: u64,
    /// Where the tarball is.
    pub tar_path: std::path::PathBuf,
}

/// Selects and merges layers of an image.
pub struct LayerMerger {
    /// The image's layers, oldest first.
    pub layers: Vec<LayerInfo>,
    /// Working directory for the merged tarball.
    pub temp_dir: std::path::PathBuf,
}

/// The earliest layer whose digest matches a prefix, and how many do.
pub struct LayerMatch {
    /// Index of the earliest matching layer.
    pub start: usize,
    /// Number of matching layers.
    pub matches: usize,
}

pub open spec fn zero_layers_message() -> Seq<char> {
    "Cannot merge 0 layers"@
}

pub open spec fn too_many_layers_message(count: nat, available: nat) -> Seq<char> {
    "Cannot merge "@ + decimal(count) + " layers, only "@ + decimal(available) + " layers available"@
}

pub open spec fn short_id_message(len: nat) -> Seq<char> {
    "Layer ID must be at least 8 characters long, got: "@ + decimal(len)
}

/// `d` starts with `id`.
pub open spec fn starts_with(d: Seq<char>, id: Seq<char>) -> bool {
    id.len() <= d.len() && d.subrange(0, id.len() as int) == id
}

/// The algorithm name that leads a digest.
pub open spec fn algorithm_prefix() -> Seq<char> {
    seq!['s', 'h', 'a', '2', '5', '6', ':']
}

/// A layer digest `d` matches prefix `id` where the whole digest, or its hex
/// part after `sha256:`, starts with `id`.
pub open spec fn digest_matches(d: Seq<char>, id: Seq<char>) -> bool {
    ||| starts_with(d, id)
    ||| (starts_with(d, algorithm_prefix()) && starts_with(d.subrange(7, d.len() as int), id))
}

/// How many of `layers` have a digest that matches `id`.
pub open spec fn count_matches(layers: Seq<LayerInfo>, id: Seq<char>) -> nat
    decreases layers.len(),
{
    if layers.len() == 0 {
        0
    } else {
        count_matches(layers.drop_last(), id) + if digest_matches(layers.last().digest@, id) {
            1nat
        } else {
            0nat
        }
    }
}

/// Whether digest `d` matches prefix `id`.
pub fn digest_matches_prefix(d: &str, id: &str) -> (r: bool)
    ensures
        r == digest_matches(d@, id@),
{
    let dc = chars_of(d);
    let ic = chars_of(id);
    let algo: [char; 7] = ['s', 'h', 'a', '2', '5', '6', ':'];
    let mut ac: Vec<char> = Vec::new();
    let mut k: usize = 0;
    while k < 7
        invariant
            k <= 7,
            algo@ == algorithm_prefix(),
            ac@ == algorithm_prefix().subrange(0, k as int),
        decreases 7 - k,
    {
        ac.push(algo[k]);
        k = k + 1;
        assert(ac@ =~= algorithm_prefix().subrange(0, k as int));
    }
    assert(ac@ =~= algorithm_prefix());
    let whole = occurs_at(&dc, 0, &ic);
    assert(whole == starts_with(d@, id@)) by {
        if ic@.len() <= dc@.len() {
            assert(dc@.subrange(0, ic@.len() as int) =~= d@.subrange(0, id@.len() as int));
        }
    }
    if whole {
        return true;
    }
    let tagged = occurs_at(&dc, 0, &ac);
    assert(tagged == starts_with(d@, algorithm_prefix())) by {
        if 7 <= dc@.len() {
            assert(dc@.subrange(0, 7) =~= d@.subrange(0, 7));
        }
    }
    if !tagged {
        return false;
    }
    let hex = occurs_at(&dc, 7, &ic);
    assert(hex == starts_with(d@.subrange(7, d@.len() as int), id@)) by {
        let h = d@.subrange(7, d@.len() as int);
        if 7 + ic@.len() <= dc@.len() {
            assert(dc@.subrange(7, 7 + ic@.len() as int) =~= h.subrange(0, id@.len() as int));
        }
    }
    hex
}

impl LayerMerger {
    pub fn new(layers: Vec<LayerInfo>, temp_dir: std::path::PathBuf) -> (r: Self)
        ensures
            r.layers == layers,
            r.temp_dir == temp_dir,
    {
        LayerMerger { layers, temp_dir }
    }

    /// Merges the newest `count` layers; `layer_tars` holds the tarballs of
    /// `self.layers`, in the same order. Whiteouts are kept in the merged
    /// layer where older layers stay below it.
    pub fn merge_latest_layers(&self, count: usize, layer_tars: &Vec<Vec<u8>>) -> (r: Result<MergedLayer, SquashError>)
        requires
            layer_tars@.len() == self.layers@.len(),
        ensures
            count == 0 ==> (r matches Err(SquashError::InvalidInput(m)) && m@ == zero_layers_message()),
            count > self.layers@.len() ==> (r matches Err(SquashError::InvalidInput(m))
                && m@ == too_many_layers_message(count as nat, self.layers@.len())),
            1 <= count <= self.layers@.len() ==> merges(
                r,
                layer_tars.deep_view().subrange(self.layers@.len() - count, self.layers@.len() as int),
                count < self.layers@.len(),
            ),
    {
        let start = match select_latest(&self.layers, count) {
            Ok(start) => start,
            Err(e) => return Err(e),
        };
        merge_layers_from(layer_tars, start, start > 0)
    }

    /// Merges the layers from the earliest one whose digest matches
    /// `layer_id` to the newest; `layer_tars` holds the tarballs of
    /// `self.layers`, in the same order. Also says which layer that was and
    /// how many matched. Whiteouts are kept in the merged layer where older
    /// layers stay below it.
    pub fn merge_from_layer_id(&self, layer_id: &str, layer_tars: &Vec<Vec<u8>>) -> (r: Result<
        (LayerMatch, MergedLayer),
        SquashError,
    >)
        requires
            layer_tars@.len() == self.layers@.len(),
        ensures
            layer_id@.len() < 8 ==> (r matches Err(SquashError::InvalidInput(m))
                && m@ == short_id_message(layer_id@.len())),
            layer_id@.len() >= 8 && count_matches(self.layers@, layer_id@) == 0 ==> (r matches Err(
                SquashError::LayerNotFound(m),
            ) && m@ == layer_id@),
            layer_id@.len() >= 8 && count_matches(self.layers@, layer_id@) > 0 ==> ({
                let start = first_match(self.layers@, layer_id@);
                let tail = layer_tars.deep_view().subrange(start, self.layers@.len() as int);
                &&& r is Ok <==> merged_tar(tail, start > 0) is Some
                &&& r matches Err(e) ==> e is IoError
                &&& r matches Ok((found, m)) ==> found.start == start && is_first_match(
                    self.layers@,
                    layer_id@,
                    found,
                ) && merge_result(m, tail, start > 0)
            }),
    {
        let found = match select_from_id(&self.layers, layer_id) {
            Ok(found) => found,
            Err(e) => return Err(e),
        };
        proof { lemma_first_match(self.layers@, layer_id@, found.start as int); }
        match merge_layers_from(layer_tars, found.start, found.start > 0) {
            Ok(m) => Ok((found, m)),
            Err(e) => Err(e),
        }
    }
}

/// `r` is what merging the layer tarballs `tars`, oldest first, gives.
pub open spec fn merges(r: Result<MergedLayer, SquashError>, tars: Seq<Seq<u8>>, keep_whiteouts: bool) -> bool {
    &&& r is Ok <==> merged_tar(tars, keep_whiteouts) is Some
    &&& r matches Err(e) ==> e is IoError
    &&& r matches Ok(m) ==> merge_result(m, tars, keep_whiteouts)
}

/// Index `i` is the earliest of `layers` whose digest matches `id`.
pub open spec fn earliest_match(layers: Seq<LayerInfo>, id: Seq<char>, i: int) -> bool {
    &&& 0 <= i < layers.len()
    &&& digest_matches(layers[i].digest@, id)
    &&& forall|j: int| 0 <= j < i ==> !digest_matches(#[trigger] layers[j].digest@, id)
}

/// The index of the earliest of `layers` whose digest matches `id`.
pub open spec fn first_match(layers: Seq<LayerInfo>, id: Seq<char>) -> int {
    choose|i: int| earliest_match(layers, id, i)
}

pub proof fn lemma_first_match(layers: Seq<LayerInfo>, id: Seq<char>, i: int)
    requires
        earliest_match(layers, id, i),
    ensures
        first_match(layers, id) == i,
{
    let c = first_match(layers, id);
    assert(earliest_match(layers, id, c));
    if c < i {
        assert(!digest_matches(layers[c].digest@, id));
    } else if i < c {
        assert(!digest_matches(layers[i].digest@, id));
    }
}

/// `found` names the earliest of `layers` whose digest matches `id`, and
/// counts those that do.
pub open spec fn is_first_match(layers: Seq<LayerInfo>, id: Seq<char>, found: LayerMatch) -> bool {
    &&& found.start < layers.len()
    &&& digest_matches(layers[found.start as int].digest@, id)
    &&& forall|i: int| 0 <= i < found.start ==> !digest_matches(#[trigger] layers[i].digest@, id)
    &&& found.matches == count_matches(layers, id)
}

/// Selects the newest `count` layers: the index of the first of them.
pub fn select_latest(layers: &Vec<LayerInfo>, count: usize) -> (r: Result<usize, SquashError>)
    ensures
        count == 0 ==> (r matches Err(SquashError::InvalidInput(m)) && m@ == zero_layers_message()),
        count > layers@.len() ==> (r matches Err(SquashError::InvalidInput(m))
            && m@ == too_many_layers_message(count as nat, layers@.len())),
        1 <= count <= layers@.len() ==> (r matches Ok(start) && start == layers@.len() - count),
{
    if count == 0 {
        let mut m: Vec<char> = Vec::new();
        push_str(&mut m, "Cannot merge 0 layers");
        assert(m@ =~= zero_layers_message());
        return Err(SquashError::InvalidInput(string_of(m)));
    }
    if count > layers.len() {
        let mut m: Vec<char> = Vec::new();
        push_str(&mut m, "Cannot merge ");
        push_decimal(&mut m, count as u64);
        push_str(&mut m, " layers, only ");
        push_decimal(&mut m, layers.len() as u64);
        push_str(&mut m, " layers available");
        assert(m@ =~= too_many_layers_message(count as nat, layers@.len()));
        return Err(SquashError::InvalidInput(string_of(m)));
    }
    Ok(layers.len() - count)
}

/// Selects the layers from the earliest one whose digest starts with
/// `layer_id` to the newest.
pub fn select_from_id(layers: &Vec<LayerInfo>, layer_id: &str) -> (r: Result<LayerMatch, SquashError>)
    ensures
        layer_id@.len() < 8 ==> (r matches Err(SquashError::InvalidInput(m))
            && m@ == short_id_message(layer_id@.len())),
        layer_id@.len() >= 8 && count_matches(layers@, layer_id@) == 0 ==> (r matches Err(
            SquashError::LayerNotFound(m),
        ) && m@ == layer_id@),
        layer_id@.len() >= 8 && count_matches(layers@, layer_id@) > 0 ==> (r matches Ok(found) && {
            &&& found.start < layers@.len()
            &&& digest_matches(layers@[found.start as int].digest@, layer_id@)
            &&& forall|i: int| 0 <= i < found.start ==> !digest_matches(#[trigger] layers@[i].digest@, layer_id@)
            &&& found.matches == count_matches(layers@, layer_id@)
        }),
{
    let len = layer_id.unicode_len();
    if len < 8 {
        let mut m: Vec<char> = Vec::new();
        push_str(&mut m, "Layer ID must be at least 8 characters long, got: ");
        push_decimal(&mut m, len as u64);
        assert(m@ =~= short_id_message(layer_id@.len()));
        return Err(SquashError::InvalidInput(string_of(m)));
    }
    let ghost ls = layers@;
    let mut start: usize = 0;
    let mut matches: usize = 0;
    let mut i: usize = 0;
    assert(ls.subrange(0, 0) =~= Seq::<LayerInfo>::empty());
    while i < layers.len()
        invariant
            ls == layers@,
            i <= ls.len(),
            matches == count_matches(ls.subrange(0, i as int), layer_id@),
            matches <= i,
            matches == 0 ==> forall|k: int| 0 <= k < i ==> !digest_matches(#[trigger] ls[k].digest@, layer_id@),
            matches > 0 ==> start < i && digest_matches(ls[start as int].digest@, layer_id@) && forall|k: int|
                0 <= k < start ==> !digest_matches(#[trigger] ls[k].digest@, layer_id@),
        decreases ls.len() - i,
    {
        assert(ls.subrange(0, i + 1).drop_last() =~= ls.subrange(0, i as int));
        if digest_matches_prefix(layers[i].digest.as_str(), layer_id) {
            if matches == 0 {
                start = i;
            }
            matches = matches + 1;
        }
        i = i + 1;
    }
    assert(ls.subrange(0, ls.len() as int) =~= ls);
    if matches == 0 {
        return Err(SquashError::LayerNotFound(layer_id.to_owned()));
    }
    Ok(LayerMatch { start, matches })
}


/// Action `a` stores a member at `p`.
pub open spec fn writes(a: Action, p: Seq<u8>) -> bool {
    a == Action::Put(p)
}

/// Action `a` hides `p`: a whiteout of `p`, or an opaque whiteout of a
/// directory that holds it.
pub open spec fn hides(a: Action, p: Seq<u8>) -> bool {
    match a {
        Action::Delete(q) => q == p,
        Action::ClearDir(d) => strictly_under(p, d),
        _ => false,
    }
}

/// `fs` holds a member at `p`.
pub open spec fn present(fs: Fs, p: Seq<u8>) -> bool {
    fs.contains_key(p) && fs[p] is Some
}

pub proof fn lemma_replay_append(fs: Fs, a: Seq<EntryView>, b: Seq<EntryView>)
    ensures
        replay(fs, a + b) == replay(replay(fs, a), b),
    decreases b.len(),
{
    if b.len() == 0 {
        assert(a + b =~= a);
    } else {
        assert((a + b).drop_last() =~= a + b.drop_last());
        lemma_replay_append(fs, a, b.drop_last());
    }
}

proof fn lemma_stays_absent(fs: Fs, rest: Seq<EntryView>, p: Seq<u8>)
    requires
        !present(fs, p),
        forall|j: int| 0 <= j < rest.len() ==> !writes(action(#[trigger] rest[j].path), p),
    ensures
        !present(replay(fs, rest), p),
    decreases rest.len(),
{
    if rest.len() > 0 {
        let init = rest.drop_last();
        assert forall|j: int| 0 <= j < init.len() implies !writes(action(#[trigger] init[j].path), p) by {
            assert(init[j] == rest[j]);
        }
        lemma_stays_absent(fs, init, p);
        assert(!writes(action(rest[rest.len() - 1].path), p));
    }
}

proof fn lemma_stays_stored(fs: Fs, rest: Seq<EntryView>, p: Seq<u8>)
    requires
        fs.contains_key(p),
        forall|j: int|
            0 <= j < rest.len() ==> !writes(action(#[trigger] rest[j].path), p) && !hides(action(rest[j].path), p),
    ensures
        replay(fs, rest).contains_key(p),
        replay(fs, rest)[p] == fs[p],
    decreases rest.len(),
{
    if rest.len() > 0 {
        let init = rest.drop_last();
        assert forall|j: int| 0 <= j < init.len() implies !writes(action(#[trigger] init[j].path), p) && !hides(
            action(init[j].path),
            p,
        ) by {
            assert(init[j] == rest[j]);
        }
        lemma_stays_stored(fs, init, p);
        let last = rest[rest.len() - 1];
        assert(!writes(action(last.path), p) && !hides(action(last.path), p));
    }
}

/// A whiteout wins: when member `i` whites out `p` (itself, or a directory
/// that holds it) and no later member stores `p` again, the merged layer has
/// nothing at `p`.
pub proof fn lemma_whiteout_hides(ms: Seq<EntryView>, i: int, p: Seq<u8>)
    requires
        0 <= i < ms.len(),
        hides(action(ms[i].path), p),
        forall|j: int| i < j < ms.len() ==> !writes(action(#[trigger] ms[j].path), p),
    ensures
        !present(merged_fs(ms), p),
        forall|out: Seq<EntryView>| #[trigger] emits(merged_fs(ms), out) ==> forall|k: int|
            0 <= k < out.len() ==> (#[trigger] out[k]).path != p,
{
    let pre = ms.subrange(0, i + 1);
    let post = ms.subrange(i + 1, ms.len() as int);
    assert(ms =~= pre + post);
    assert(pre.drop_last() =~= ms.subrange(0, i));
    lemma_replay_append(Map::empty(), pre, post);
    assert forall|j: int| 0 <= j < post.len() implies !writes(action(#[trigger] post[j].path), p) by {
        assert(post[j] == ms[i + 1 + j]);
    }
    lemma_stays_absent(replay(Map::empty(), pre), post, p);
}

/// The last write wins: when member `i` stores `p` and no later member
/// stores, whites out or hides `p`, the merged filesystem holds member `i`'s
/// header and contents at `p`, and so does every listing of the merged layer
/// where the path fits.
pub proof fn lemma_last_write_kept(ms: Seq<EntryView>, i: int, p: Seq<u8>)
    requires
        0 <= i < ms.len(),
        writes(action(ms[i].path), p),
        forall|j: int|
            i < j < ms.len() ==> !writes(action(#[trigger] ms[j].path), p) && !hides(action(ms[j].path), p),
    ensures
        merged_fs(ms).contains_key(p),
        merged_fs(ms)[p] == Some((ms[i].header, ms[i].data)),
        p.len() <= MAX_PATH_LEN ==> forall|out: Seq<EntryView>| #[trigger] emits(merged_fs(ms), out) ==> exists|k: int|
            0 <= k < out.len() && out[k] == (EntryView { path: p, header: ms[i].header, data: ms[i].data }),
{
    let pre = ms.subrange(0, i + 1);
    let post = ms.subrange(i + 1, ms.len() as int);
    assert(ms =~= pre + post);
    assert(pre.drop_last() =~= ms.subrange(0, i));
    lemma_replay_append(Map::empty(), pre, post);
    assert forall|j: int| 0 <= j < post.len() implies !writes(action(#[trigger] post[j].path), p) && !hides(
        action(post[j].path),
        p,
    ) by {
        assert(post[j] == ms[i + 1 + j]);
    }
    lemma_stays_stored(replay(Map::empty(), pre), post, p);
    let fs = merged_fs(ms);
    if p.len() <= MAX_PATH_LEN {
        assert forall|out: Seq<EntryView>| #[trigger] emits(fs, out) implies exists|k: int|
            0 <= k < out.len() && out[k] == (EntryView { path: p, header: ms[i].header, data: ms[i].data }) by {
            assert(fs.contains_key(p));
            let k = choose|k: int| 0 <= k < out.len() && out[k].path == p;
            assert(out[k] == (EntryView { path: p, header: ms[i].header, data: ms[i].data }));
        }
    }
}


/// Merging is deterministic: two merges of the same layer tarballs that
/// succeed give the same bytes, and so the same diff-id.
pub proof fn lemma_merge_deterministic(tars: Seq<Seq<u8>>, keep_whiteouts: bool, a: Seq<u8>, b: Seq<u8>)
    requires
        merged_tar(tars, keep_whiteouts) == Some(a),
        merged_tar(tars, keep_whiteouts) == Some(b),
    ensures
        a == b,
        layer_digest(a) == layer_digest(b),
{
}

/// A member whose path is absolute or climbs out with `..` is skipped: the
/// merged filesystem is the one without it.
pub proof fn lemma_unsafe_member_skipped(ms: Seq<EntryView>, i: int)
    requires
        0 <= i < ms.len(),
        is_unsafe(ms[i].path),
    ensures
        merged_fs(ms) == merged_fs(ms.remove(i)),
{
    let pre = ms.subrange(0, i);
    let post = ms.subrange(i + 1, ms.len() as int);
    assert(ms =~= (pre + seq![ms[i]]) + post);
    assert(ms.remove(i) =~= pre + post);
    assert((pre + seq![ms[i]]).drop_last() =~= pre);
    lemma_replay_append(Map::empty(), pre + seq![ms[i]], post);
    lemma_replay_append(Map::empty(), pre, post);
}


/// No member of `ms` is a whiteout or an opaque whiteout.
pub open spec fn no_whiteouts(ms: Seq<EntryView>) -> bool {
    forall|j: int|
        0 <= j < ms.len() ==> !(action(#[trigger] ms[j].path) is ClearDir) && !(action(ms[j].path) is Delete)
}

/// A path where a member is stored is read back as a store at that path.
pub proof fn lemma_stored_path_reclassifies(path: Seq<u8>)
    requires
        action(path) is Put,
    ensures
        action(action(path)->Put_0) == action(path),
{
    let cs = components(path);
    let q = join(cs);
    lemma_scan_well_formed(path);
    lemma_components_of_join(cs);
    lemma_join_first(cs);
    assert(plain(cs[0]));
    assert(cs[0][0] != SLASH);
    assert(!is_unsafe(q));
}


proof fn lemma_overlay(base: Fs, ms: Seq<EntryView>)
    requires
        no_whiteouts(ms),
    ensures
        replay(base, ms) == base.union_prefer_right(merged_fs(ms)),
    decreases ms.len(),
{
    if ms.len() == 0 {
        assert(base.union_prefer_right(Map::empty()) =~= base);
    } else {
        let init = ms.drop_last();
        assert forall|j: int| 0 <= j < init.len() implies !(action(#[trigger] init[j].path) is ClearDir) && !(action(
            init[j].path,
        ) is Delete) by {
            assert(init[j] == ms[j]);
        }
        lemma_overlay(base, init);
        let m = ms[ms.len() - 1];
        assert(!(action(m.path) is ClearDir) && !(action(m.path) is Delete));
        assert(replay(base, ms) =~= base.union_prefer_right(merged_fs(ms)));
    }
}

proof fn lemma_replay_listing(out: Seq<EntryView>)
    requires
        sorted_by_path(out),
        forall|k: int| 0 <= k < out.len() ==> action(#[trigger] out[k].path) == Action::Put(out[k].path),
    ensures
        forall|k: int|
            0 <= k < out.len() ==> merged_fs(out).contains_key(#[trigger] out[k].path) && merged_fs(out)[out[k].path]
                == Some((out[k].header, out[k].data)),
        forall|p: Seq<u8>| #[trigger] merged_fs(out).contains_key(p) ==> exists|k: int| 0 <= k < out.len() && out[k].path == p,
    decreases out.len(),
{
    if out.len() > 0 {
        let init = out.drop_last();
        let last = out[out.len() - 1];
        assert forall|k: int| 0 <= k < init.len() implies action(#[trigger] init[k].path) == Action::Put(init[k].path) by {
            assert(init[k] == out[k]);
        }
        assert(sorted_by_path(init)) by {
            assert forall|i: int, j: int| 0 <= i < j < init.len() implies lex_lt(#[trigger] init[i].path, #[trigger] init[j].path) by {
                assert(init[i] == out[i] && init[j] == out[j]);
            }
        }
        lemma_replay_listing(init);
        assert forall|k: int| 0 <= k < out.len() implies merged_fs(out).contains_key(#[trigger] out[k].path)
            && merged_fs(out)[out[k].path] == Some((out[k].header, out[k].data)) by {
            if k < out.len() - 1 {
                assert(init[k] == out[k]);
                assert(lex_lt(out[k].path, last.path));
                lemma_lex_irreflexive(last.path);
            }
        }
        assert forall|p: Seq<u8>| #[trigger] merged_fs(out).contains_key(p) implies exists|k: int|
            0 <= k < out.len() && out[k].path == p by {
            if p != last.path {
                assert(merged_fs(init).contains_key(p));
                let k = choose|k: int| 0 <= k < init.len() && init[k].path == p;
                assert(out[k].path == p);
            }
        }
    }
}



/// Nothing unsafe reaches the merged layer: every path present in the
/// merged filesystem, and so every member of a listing of it, is relative
/// and has no `..` component.
pub proof fn lemma_stored_paths_safe(ms: Seq<EntryView>)
    ensures
        forall|p: Seq<u8>| #[trigger] present(merged_fs(ms), p) ==> !is_unsafe(p),
        forall|out: Seq<EntryView>| #[trigger] emits(merged_fs(ms), out) ==> forall|k: int|
            0 <= k < out.len() ==> !is_unsafe(#[trigger] out[k].path),
    decreases ms.len(),
{
    let fs = merged_fs(ms);
    if ms.len() > 0 {
        let init = ms.drop_last();
        lemma_stored_paths_safe(init);
        let m = ms.last();
        let before = merged_fs(init);
        if action(m.path) is Put {
            lemma_stored_path_reclassifies(m.path);
        }
        assert forall|p: Seq<u8>| #[trigger] present(fs, p) implies !is_unsafe(p) by {
            match action(m.path) {
                Action::Put(q) => {
                    if p != q {
                        assert(present(before, p));
                    }
                },
                Action::Delete(q) => {
                    assert(p != q);
                    assert(present(before, p));
                },
                Action::ClearDir(d) => {
                    assert(present(before, p));
                },
                _ => {
                    assert(present(before, p));
                },
            }
        }
    }
    assert forall|out: Seq<EntryView>| #[trigger] emits(fs, out) implies forall|k: int|
        0 <= k < out.len() ==> !is_unsafe(#[trigger] out[k].path) by {
        assert forall|k: int| 0 <= k < out.len() implies !is_unsafe(#[trigger] out[k].path) by {
            assert(present(fs, out[k].path));
        }
    }
}


/// The indices of the layers whose digest matches `id`, in order.
pub open spec fn matching_indices(layers: Seq<LayerInfo>, id: Seq<char>) -> Seq<usize>
    decreases layers.len(),
{
    if layers.len() == 0 {
        seq![]
    } else if digest_matches(layers.last().digest@, id) {
        matching_indices(layers.drop_last(), id).push((layers.len() - 1) as usize)
    } else {
        matching_indices(layers.drop_last(), id)
    }
}

/// The indices of the layers whose digest matches `layer_id`, in order.
pub fn matching_layers(layers: &Vec<LayerInfo>, layer_id: &str) -> (r: Vec<usize>)
    ensures
        r@ == matching_indices(layers@, layer_id@),
{
    let ghost ls = layers@;
    let mut out: Vec<usize> = Vec::new();
    let mut i: usize = 0;
    assert(ls.subrange(0, 0) =~= Seq::<LayerInfo>::empty());
    while i < layers.len()
        invariant
            ls == layers@,
            i <= ls.len(),
            out@ == matching_indices(ls.subrange(0, i as int), layer_id@),
        decreases ls.len() - i,
    {
        assert(ls.subrange(0, i + 1).drop_last() =~= ls.subrange(0, i as int));
        if digest_matches_prefix(layers[i].digest.as_str(), layer_id) {
            out.push(i);
        }
        i = i + 1;
    }
    assert(ls.subrange(0, ls.len() as int) =~= ls);
    out
}


/// Normalizing the path of a member that acts leaves its action as it was.
pub proof fn lemma_normalized_same_action(path: Seq<u8>)
    requires
        !is_unsafe(path),
        components(path).len() > 0,
    ensures
        action(join(components(path))) == action(path),
{
    let cs = components(path);
    let q = join(cs);
    lemma_scan_well_formed(path);
    lemma_components_of_join(cs);
    lemma_join_first(cs);
    assert(plain(cs[0]));
    assert(cs[0][0] != SLASH);
    assert(!is_unsafe(q));
}

/// What `fs` holds present, without its deletion marks.
pub open spec fn present_part(fs: Fs) -> Fs {
    Map::new(|p: Seq<u8>| present(fs, p), |p: Seq<u8>| fs[p])
}

/// `lower` with what `fs` holds present laid over it.
pub open spec fn overlay_present(lower: Fs, fs: Fs) -> Fs {
    lower.union_prefer_right(present_part(fs))
}

proof fn lemma_present_keys_are_stores(ms: Seq<EntryView>)
    ensures
        forall|p: Seq<u8>| #[trigger] present(merged_fs(ms), p) ==> action(p) == Action::Put(p),
    decreases ms.len(),
{
    if ms.len() > 0 {
        let init = ms.drop_last();
        lemma_present_keys_are_stores(init);
        let m = ms.last();
        let before = merged_fs(init);
        let fs = merged_fs(ms);
        if action(m.path) is Put {
            lemma_stored_path_reclassifies(m.path);
        }
        assert forall|p: Seq<u8>| #[trigger] present(fs, p) implies action(p) == Action::Put(p) by {
            match action(m.path) {
                Action::Put(q) => {
                    if p != q {
                        assert(present(before, p));
                    }
                },
                Action::Delete(q) => {
                    assert(p != q);
                    assert(present(before, p));
                },
                Action::ClearDir(d) => {
                    assert(present(before, p));
                },
                _ => {
                    assert(present(before, p));
                },
            }
        }
    }
}

/// Replaying `ms` over `base` is replaying only its whiteouts over `base`,
/// then laying what `ms` leaves present over the result.
pub proof fn lemma_replay_splits(base: Fs, ms: Seq<EntryView>)
    ensures
        replay(base, ms) == overlay_present(replay(base, removals(ms)), merged_fs(ms)),
    decreases ms.len(),
{
    if ms.len() == 0 {
        assert(overlay_present(base, Map::empty()) =~= base);
    } else {
        let init = ms.drop_last();
        let m = ms.last();
        lemma_replay_splits(base, init);
        let x = replay(base, removals(init));
        let f = merged_fs(init);
        let r = replay(base, init);
        match action(m.path) {
            Action::Put(p) => {
                assert(replay(base, ms) =~= overlay_present(x, merged_fs(ms)));
            },
            Action::Delete(p) => {
                lemma_normalized_same_action(m.path);
                assert(removals(ms).drop_last() =~= removals(init));
                assert(replay(base, removals(ms)) == x.insert(p, None));
                assert(replay(base, ms) =~= overlay_present(x.insert(p, None), merged_fs(ms)));
            },
            Action::ClearDir(d) => {
                lemma_normalized_same_action(m.path);
                assert(removals(ms).drop_last() =~= removals(init));
                assert(replay(base, removals(ms)) == cleared(x, d));
                assert(replay(base, ms) =~= overlay_present(cleared(x, d), merged_fs(ms)));
            },
            _ => {
                assert(replay(base, ms) =~= overlay_present(x, merged_fs(ms)));
            },
        }
    }
}

proof fn lemma_listing_replays_present(lower: Fs, ms: Seq<EntryView>, out: Seq<EntryView>)
    requires
        forall|p: Seq<u8>| #[trigger] present(merged_fs(ms), p) ==> p.len() <= MAX_PATH_LEN,
        emits(merged_fs(ms), out),
    ensures
        merged_fs(out) == present_part(merged_fs(ms)),
        replay(lower, out) == overlay_present(lower, merged_fs(ms)),
{
    let fs = merged_fs(ms);
    lemma_present_keys_are_stores(ms);
    assert forall|k: int| 0 <= k < out.len() implies action(#[trigger] out[k].path) == Action::Put(out[k].path) by {
        assert(present(fs, out[k].path));
    }
    assert(no_whiteouts(out));
    lemma_replay_listing(out);
    assert forall|p: Seq<u8>| #[trigger] present_part(fs).contains_key(p) implies merged_fs(out).contains_key(p) by {
        assert(present(fs, p));
        let k = choose|k: int| 0 <= k < out.len() && out[k].path == p;
        assert(merged_fs(out).contains_key(out[k].path));
    }
    assert forall|p: Seq<u8>| #[trigger] merged_fs(out).contains_key(p) implies present_part(fs).contains_key(p)
        && present_part(fs)[p] == merged_fs(out)[p] by {
        let k = choose|k: int| 0 <= k < out.len() && out[k].path == p;
        assert(merged_fs(out).contains_key(out[k].path));
    }
    assert(merged_fs(out) =~= present_part(fs));
    lemma_overlay(lower, out);
}

/// A merged layer changes nothing a runtime sees. Over any lower filesystem
/// `lower`, the merged layer that keeps the whiteouts of `ms` (as it is
/// written where layers stay below it) gives the same filesystem as the
/// members `ms` themselves; squashing one layer is the case of a single
/// layer. This holds where no path left present is too long to be written.
pub proof fn lemma_merged_layer_is_transparent(lower: Fs, ms: Seq<EntryView>, out: Seq<EntryView>)
    requires
        forall|p: Seq<u8>| #[trigger] present(merged_fs(ms), p) ==> p.len() <= MAX_PATH_LEN,
        emits(merged_fs(ms), out),
    ensures
        replay(lower, removals(ms) + out) == replay(lower, ms),
{
    lemma_replay_append(lower, removals(ms), out);
    lemma_listing_replays_present(replay(lower, removals(ms)), ms, out);
    lemma_replay_splits(lower, ms);
}

/// With no layers below it (the whole image merged), the merged layer
/// without whiteouts shows exactly what the members `ms` leave present.
/// This holds where no path left present is too long to be written.
pub proof fn lemma_whole_merge_keeps_view(ms: Seq<EntryView>, out: Seq<EntryView>)
    requires
        forall|p: Seq<u8>| #[trigger] present(merged_fs(ms), p) ==> p.len() <= MAX_PATH_LEN,
        emits(merged_fs(ms), out),
    ensures
        present_part(merged_fs(out)) == present_part(merged_fs(ms)),
{
    lemma_listing_replays_present(Map::empty(), ms, out);
    assert(present_part(merged_fs(out)) =~= merged_fs(out));
}


/// The whiteouts that a merged layer keeps are written under safe paths,
/// and each reads back as the whiteout it was.
pub proof fn lemma_removal_paths_safe(ms: Seq<EntryView>)
    ensures
        forall|k: int| 0 <= k < removals(ms).len() ==> !is_unsafe(#[trigger] removals(ms)[k].path),
        forall|k: int| 0 <= k < removals(ms).len() ==> is_removal(action(#[trigger] removals(ms)[k].path)),
    decreases ms.len(),
{
    if ms.len() > 0 {
        let init = ms.drop_last();
        lemma_removal_paths_safe(init);
        let m = ms.last();
        if is_removal(action(m.path)) {
            lemma_normalized_same_action(m.path);
            let rs = removals(ms);
            assert forall|k: int| 0 <= k < rs.len() implies !is_unsafe(#[trigger] rs[k].path) && is_removal(
                action(rs[k].path),
            ) by {
                if k < rs.len() - 1 {
                    assert(rs[k] == removals(init)[k]);
                }
            }
        }
    }
}

} // verus!
