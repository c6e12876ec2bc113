//! Archive member paths as bytes: normalization, safety and ordering.
use vstd::prelude::*;

verus! {

/// The byte `/`.
pub const SLASH: u8 = 47;

/// The byte `.`.
pub const DOT: u8 = 46;

/// A segment that normalization keeps: not empty and not `.`.
pub open spec fn kept(seg: Seq<u8>) -> bool {
    seg.len() > 0 && seg != seq![DOT]
}

pub open spec fn close_segment(done: Seq<Seq<u8>>, seg: Seq<u8>) -> Seq<Seq<u8>> {
    if kept(seg) {
        done.push(seg)
    } else {
        done
    }
}

/// Reading `p` from the left: the components finished so far and the
/// segment still open after its last `/`.
pub open spec fn scan(p: Seq<u8>) -> (Seq<Seq<u8>>, Seq<u8>)
    decreases p.len(),
{
    if p.len() == 0 {
        (seq![], seq![])
    } else {
        let (done, seg) = scan(p.drop_last());
        if p.last() == SLASH {
            (close_segment(done, seg), seq![])
        } else {
            (done, seg.push(p.last()))
        }
    }
}

/// The components of `p`: its `/`-separated segments, without the empty
/// ones and without `.`.
pub open spec fn components(p: Seq<u8>) -> Seq<Seq<u8>> {
    close_segment(scan(p).0, scan(p).1)
}

/// The components joined by single slashes.
pub open spec fn join(cs: Seq<Seq<u8>>) -> Seq<u8>
    decreases cs.len(),
{
    if cs.len() == 0 {
        seq![]
    } else if cs.len() == 1 {
        cs[0]
    } else {
        join(cs.drop_last()).push(SLASH) + cs.last()
    }
}

pub open spec fn is_parent_ref(seg: Seq<u8>) -> bool {
    seg == seq![DOT, DOT]
}

/// A path that is absolute, or that has a `..` component.
pub open spec fn is_unsafe(p: Seq<u8>) -> bool {
    ||| (p.len() > 0 && p[0] == SLASH)
    ||| exists|i: int| 0 <= i < components(p).len() && is_parent_ref(#[trigger] components(p)[i])
}

/// `p` names something inside directory `dir` (both normalized); the empty
/// `dir` is the root, which holds every non-empty path.
pub open spec fn strictly_under(p: Seq<u8>, dir: Seq<u8>) -> bool {
    if dir.len() == 0 {
        p.len() > 0
    } else {
        p.len() > dir.len() && p.subrange(0, dir.len() as int) == dir && p[dir.len() as int] == SLASH
    }
}

/// Byte-wise lexicographic order: `a` comes strictly before `b`.
pub open spec fn lex_lt(a: Seq<u8>, b: Seq<u8>) -> bool
    decreases a.len(),
{
    if b.len() == 0 {
        false
    } else if a.len() == 0 {
        true
    } else if a[0] != b[0] {
        a[0] < b[0]
    } else {
        lex_lt(a.drop_first(), b.drop_first())
    }
}

pub proof fn lemma_lex_irreflexive(a: Seq<u8>)
    ensures
        !lex_lt(a, a),
    decreases a.len(),
{
    if a.len() > 0 {
        lemma_lex_irreflexive(a.drop_first());
    }
}

pub proof fn lemma_lex_transitive(a: Seq<u8>, b: Seq<u8>, c: Seq<u8>)
    requires
        lex_lt(a, b),
        lex_lt(b, c),
    ensures
        lex_lt(a, c),
    decreases a.len(),
{
    if a.len() > 0 && a[0] == b[0] && b[0] == c[0] {
        lemma_lex_transitive(a.drop_first(), b.drop_first(), c.drop_first());
    }
}

pub proof fn lemma_lex_total(a: Seq<u8>, b: Seq<u8>)
    ensures
        a == b || lex_lt(a, b) || lex_lt(b, a),
    decreases a.len(),
{
    if a.len() > 0 && b.len() > 0 && a[0] == b[0] {
        lemma_lex_total(a.drop_first(), b.drop_first());
        if a.drop_first() == b.drop_first() {
            assert(a =~= seq![a[0]] + a.drop_first());
            assert(b =~= seq![b[0]] + b.drop_first());
        }
    } else if a.len() == 0 && b.len() == 0 {
        assert(a =~= b);
    }
}

pub proof fn lemma_lex_asymmetric(a: Seq<u8>, b: Seq<u8>)
    requires
        lex_lt(a, b),
    ensures
        !lex_lt(b, a),
{
    if lex_lt(b, a) {
        lemma_lex_transitive(a, b, a);
        lemma_lex_irreflexive(a);
    }
}

/// Compares two byte strings in [`lex_lt`] order.
pub fn compare_bytes(a: &[u8], b: &[u8]) -> (r: core::cmp::Ordering)
    ensures
        (r == core::cmp::Ordering::Less) == lex_lt(a@, b@),
        (r == core::cmp::Ordering::Equal) == (a@ == b@),
        (r == core::cmp::Ordering::Greater) == lex_lt(b@, a@),
{
    let mut i: usize = 0;
    assert(a@.subrange(0, a@.len() as int) =~= a@);
    assert(b@.subrange(0, b@.len() as int) =~= b@);
    assert(a@.subrange(0, 0) =~= b@.subrange(0, 0));
    while i < a.len() && i < b.len() && a[i] == b[i]
        invariant
            i <= a@.len(),
            i <= b@.len(),
            a@.subrange(0, i as int) == b@.subrange(0, i as int),
            lex_lt(a@, b@) == lex_lt(a@.subrange(i as int, a@.len() as int), b@.subrange(i as int, b@.len() as int)),
            lex_lt(b@, a@) == lex_lt(b@.subrange(i as int, b@.len() as int), a@.subrange(i as int, a@.len() as int)),
        decreases a@.len() - i,
    {
        proof {
            let sa = a@.subrange(i as int, a@.len() as int);
            let sb = b@.subrange(i as int, b@.len() as int);
            assert(sa.drop_first() =~= a@.subrange(i + 1, a@.len() as int));
            assert(sb.drop_first() =~= b@.subrange(i + 1, b@.len() as int));
            assert(a@.subrange(0, i + 1) =~= a@.subrange(0, i as int).push(a@[i as int]));
            assert(b@.subrange(0, i + 1) =~= b@.subrange(0, i as int).push(b@[i as int]));
        }
        i = i + 1;
    }
    proof {
        assert(a@ =~= a@.subrange(0, i as int) + a@.subrange(i as int, a@.len() as int));
        assert(b@ =~= b@.subrange(0, i as int) + b@.subrange(i as int, b@.len() as int));
        lemma_lex_irreflexive(a@);
        lemma_lex_irreflexive(b@);
    }
    if i < a.len() && i < b.len() {
        if a[i] < b[i] {
            proof { lemma_lex_asymmetric(a@, b@); }
            core::cmp::Ordering::Less
        } else {
            proof { lemma_lex_asymmetric(b@, a@); }
            core::cmp::Ordering::Greater
        }
    } else if i < a.len() {
        proof {
            assert(a@ != b@);
        }
        core::cmp::Ordering::Greater
    } else if i < b.len() {
        proof {
            assert(a@ != b@);
        }
        core::cmp::Ordering::Less
    } else {
        proof {
            assert(a@ =~= b@);
        }
        core::cmp::Ordering::Equal
    }
}

/// Whether `a` and `b` hold the same bytes.
pub fn same_bytes(a: &[u8], b: &[u8]) -> (r: bool)
    ensures
        r == (a@ == b@),
{
    match compare_bytes(a, b) {
        core::cmp::Ordering::Equal => true,
        _ => false,
    }
}

pub proof fn lemma_bytes_deep_view(v: &Vec<u8>)
    ensures
        v.deep_view() == v@,
{
    assert(v.deep_view() =~= v@);
}

/// Whether normalization keeps `seg`.
fn is_kept(seg: &Vec<u8>) -> (r: bool)
    ensures
        r == kept(seg@),
{
    if seg.len() == 0 {
        false
    } else if seg.len() == 1 && seg[0] == DOT {
        assert(seg@ =~= seq![DOT]);
        false
    } else {
        assert(seg@.len() != 1 ==> seg@ != seq![DOT]);
        true
    }
}

/// The components of `p`, in order.
pub fn components_of(p: &[u8]) -> (r: Vec<Vec<u8>>)
    ensures
        r.deep_view() == components(p@),
{
    let mut done: Vec<Vec<u8>> = Vec::new();
    let mut seg: Vec<u8> = Vec::new();
    let mut i: usize = 0;
    assert(p@.subrange(0, 0) =~= Seq::<u8>::empty());
    assert(done.deep_view() =~= Seq::<Seq<u8>>::empty());
    while i < p.len()
        invariant
            i <= p@.len(),
            (done.deep_view(), seg@) == scan(p@.subrange(0, i as int)),
        decreases p@.len() - i,
    {
        let ghost old_done = done.deep_view();
        let ghost old_seg = seg@;
        assert(p@.subrange(0, i + 1).drop_last() =~= p@.subrange(0, i as int));
        if p[i] == SLASH {
            if is_kept(&seg) {
                proof { lemma_bytes_deep_view(&seg); }
                done.push(seg);
                assert(done.deep_view() =~= old_done.push(old_seg));
            }
            seg = Vec::new();
        } else {
            seg.push(p[i]);
        }
        i = i + 1;
    }
    assert(p@.subrange(0, p@.len() as int) =~= p@);
    if is_kept(&seg) {
        let ghost old_done = done.deep_view();
        let ghost old_seg = seg@;
        proof { lemma_bytes_deep_view(&seg); }
        done.push(seg);
        assert(done.deep_view() =~= old_done.push(old_seg));
    }
    done
}

/// The first `n` components of `cs`, joined by slashes.
pub fn join_prefix(cs: &Vec<Vec<u8>>, n: usize) -> (r: Vec<u8>)
    requires
        n <= cs@.len(),
    ensures
        r@ == join(cs.deep_view().subrange(0, n as int)),
{
    let ghost all = cs.deep_view();
    let mut out: Vec<u8> = Vec::new();
    let mut i: usize = 0;
    assert(all.subrange(0, 0) =~= Seq::<Seq<u8>>::empty());
    while i < n
        invariant
            n <= cs@.len(),
            i <= n,
            all == cs.deep_view(),
            out@ == join(all.subrange(0, i as int)),
        decreases n - i,
    {
        let part = &cs[i];
        assert(all[i as int] == part@);
        if i > 0 {
            out.push(SLASH);
        }
        out.extend_from_slice(part.as_slice());
        i = i + 1;
        assert(all.subrange(0, i as int).drop_last() =~= all.subrange(0, i - 1));
        assert(out@ =~= join(all.subrange(0, i as int)));
    }
    out
}

/// Whether `p` starts with a slash.
pub fn is_absolute(p: &[u8]) -> (r: bool)
    ensures
        r == (p@.len() > 0 && p@[0] == SLASH),
{
    p.len() > 0 && p[0] == SLASH
}

/// Whether some component is `..`.
pub fn has_parent_ref(cs: &Vec<Vec<u8>>) -> (r: bool)
    ensures
        r == exists|i: int| 0 <= i < cs.deep_view().len() && is_parent_ref(#[trigger] cs.deep_view()[i]),
{
    let ghost d = cs.deep_view();
    let mut i: usize = 0;
    while i < cs.len()
        invariant
            i <= cs@.len(),
            d == cs.deep_view(),
            forall|j: int| 0 <= j < i ==> !is_parent_ref(#[trigger] d[j]),
        decreases cs@.len() - i,
    {
        let c = &cs[i];
        assert(d[i as int] == c@);
        if c.len() == 2 && c[0] == DOT && c[1] == DOT {
            assert(c@ =~= seq![DOT, DOT]);
            return true;
        }
        assert(!is_parent_ref(d[i as int]));
        i = i + 1;
    }
    false
}

/// Whether `p` lies strictly inside directory `dir`.
pub fn is_strictly_under(p: &[u8], dir: &[u8]) -> (r: bool)
    ensures
        r == strictly_under(p@, dir@),
{
    if dir.len() == 0 {
        return p.len() > 0;
    }
    if p.len() <= dir.len() {
        return false;
    }
    let mut i: usize = 0;
    while i < dir.len()
        invariant
            i <= dir@.len(),
            dir@.len() < p@.len(),
            p@.subrange(0, i as int) == dir@.subrange(0, i as int),
        decreases dir@.len() - i,
    {
        if p[i] != dir[i] {
            assert(p@.subrange(0, dir@.len() as int)[i as int] != dir@[i as int]);
            return false;
        }
        assert(p@.subrange(0, i + 1) =~= p@.subrange(0, i as int).push(p@[i as int]));
        assert(dir@.subrange(0, i + 1) =~= dir@.subrange(0, i as int).push(dir@[i as int]));
        i = i + 1;
    }
    assert(dir@.subrange(0, dir@.len() as int) =~= dir@);
    p[dir.len()] == SLASH
}


/// `c` holds no slash.
pub open spec fn plain(c: Seq<u8>) -> bool {
    forall|i: int| 0 <= i < c.len() ==> c[i] != SLASH
}

/// Components as normalization produces them: kept, and without slashes.
pub open spec fn well_formed(cs: Seq<Seq<u8>>) -> bool {
    forall|i: int| 0 <= i < cs.len() ==> kept(#[trigger] cs[i]) && plain(cs[i])
}

pub proof fn lemma_scan_well_formed(p: Seq<u8>)
    ensures
        well_formed(scan(p).0),
        plain(scan(p).1),
        well_formed(components(p)),
    decreases p.len(),
{
    if p.len() > 0 {
        lemma_scan_well_formed(p.drop_last());
        let (done, seg) = scan(p.drop_last());
        if p.last() != SLASH {
            assert(plain(seg.push(p.last())));
        }
    }
    let (done, seg) = scan(p);
    assert(well_formed(close_segment(done, seg)));
}

proof fn lemma_scan_plain_suffix(x: Seq<u8>, y: Seq<u8>)
    requires
        plain(y),
    ensures
        scan(x + y) == (scan(x).0, scan(x).1 + y),
    decreases y.len(),
{
    if y.len() == 0 {
        assert(x + y =~= x);
        assert(scan(x).1 + y =~= scan(x).1);
    } else {
        let init = y.drop_last();
        assert((x + y).drop_last() =~= x + init);
        assert((x + y).last() == y.last());
        lemma_scan_plain_suffix(x, init);
        assert(scan(x).1 + init + seq![y.last()] =~= scan(x).1 + y);
        assert((scan(x).1 + init).push(y.last()) =~= scan(x).1 + y);
    }
}

/// Normalization leaves joined well-formed components as they are.
pub proof fn lemma_components_of_join(cs: Seq<Seq<u8>>)
    requires
        well_formed(cs),
    ensures
        components(join(cs)) == cs,
    decreases cs.len(),
{
    if cs.len() == 0 {
        assert(components(join(cs)) =~= cs);
    } else if cs.len() == 1 {
        assert(kept(cs[0]) && plain(cs[0]));
        lemma_scan_plain_suffix(seq![], cs[0]);
        assert(seq![] + cs[0] =~= cs[0]);
        assert(Seq::<u8>::empty() + cs[0] =~= cs[0]);
        assert(components(join(cs)) =~= cs);
    } else {
        let init = cs.drop_last();
        assert(well_formed(init)) by {
            assert forall|i: int| 0 <= i < init.len() implies kept(#[trigger] init[i]) && plain(init[i]) by {
                assert(init[i] == cs[i]);
            }
        }
        lemma_components_of_join(init);
        let x = join(init).push(SLASH);
        assert(x.drop_last() =~= join(init));
        assert(scan(x) == (components(join(init)), Seq::<u8>::empty()));
        assert(kept(cs.last()) && plain(cs.last()));
        lemma_scan_plain_suffix(x, cs.last());
        assert(Seq::<u8>::empty() + cs.last() =~= cs.last());
        assert(components(join(cs)) =~= cs);
    }
}

/// A join of well-formed components starts with the first component's first
/// byte.
pub proof fn lemma_join_first(cs: Seq<Seq<u8>>)
    requires
        well_formed(cs),
        cs.len() > 0,
    ensures
        join(cs).len() > 0,
        join(cs)[0] == cs[0][0],
    decreases cs.len(),
{
    assert(kept(cs[0]));
    if cs.len() > 1 {
        let init = cs.drop_last();
        assert(well_formed(init)) by {
            assert forall|i: int| 0 <= i < init.len() implies kept(#[trigger] init[i]) && plain(init[i]) by {
                assert(init[i] == cs[i]);
            }
        }
        lemma_join_first(init);
    }
}

} // verus!
