//! The mapping index: mappings ordered by generated position, with the
//! nearest-match query.
use vstd::prelude::*;

use crate::mapping::{Mapping, MappingView, Position, views};

verus! {

/// `a` is at or before `b`, line first, then column.
pub open spec fn pos_le(a: Position, b: Position) -> bool {
    a.line < b.line || (a.line == b.line && a.column <= b.column)
}

/// Generated positions never decrease along `s`.
pub open spec fn sorted(s: Seq<MappingView>) -> bool {
    forall|i: int, j: int| 0 <= i < j < s.len() ==> pos_le(s[i].generated, s[j].generated)
}

/// How many mappings of `s` stand at or before `p`, counted back from the
/// end of `s` up to the last one that does.
pub open spec fn count_le(s: Seq<MappingView>, p: Position) -> nat
    decreases s.len(),
{
    if s.len() == 0 {
        0
    } else if pos_le(s.last().generated, p) {
        s.len()
    } else {
        count_le(s.drop_last(), p)
    }
}

/// `s` with `m` placed after every mapping at or before its generated position.
pub open spec fn insert_sorted(s: Seq<MappingView>, m: MappingView) -> Seq<MappingView> {
    s.insert(count_le(s, m.generated) as int, m)
}

/// The index of the mappings `ms`: each inserted in turn, so that mappings
/// with equal generated positions keep the order in which they came.
pub open spec fn index_of(ms: Seq<MappingView>) -> Seq<MappingView>
    decreases ms.len(),
{
    if ms.len() == 0 {
        Seq::empty()
    } else {
        insert_sorted(index_of(ms.drop_last()), ms.last())
    }
}

/// The mapping that a lookup returns when the index is empty.
pub open spec fn sentinel() -> MappingView {
    MappingView {
        generated: Position { line: 0, column: 0 },
        original: Position { line: 0, column: 0 },
        source_index: None,
        name_index: None,
        source: Seq::empty(),
        name: Seq::empty(),
    }
}

/// The last mapping at or before `p`; the first one if none is; the
/// sentinel if there is none at all.
pub open spec fn lookup_spec(s: Seq<MappingView>, p: Position) -> MappingView {
    if s.len() == 0 {
        sentinel()
    } else if count_le(s, p) == 0 {
        s[0]
    } else {
        s[count_le(s, p) - 1]
    }
}

/// Where `s` splits into mappings at or before `p` and mappings after it,
/// `count_le` is that split.
pub proof fn lemma_count_le_split(s: Seq<MappingView>, p: Position, j: int)
    requires
        0 <= j <= s.len(),
        forall|k: int| 0 <= k < j ==> pos_le(#[trigger] s[k].generated, p),
        forall|k: int| j <= k < s.len() ==> !pos_le(#[trigger] s[k].generated, p),
    ensures
        count_le(s, p) == j,
    decreases s.len(),
{
    if s.len() > 0 && j < s.len() {
        let t = s.drop_last();
        assert forall|k: int| 0 <= k < j implies pos_le(#[trigger] t[k].generated, p) by {
            assert(t[k] == s[k]);
        }
        assert forall|k: int| j <= k < t.len() implies !pos_le(#[trigger] t[k].generated, p) by {
            assert(t[k] == s[k]);
        }
        lemma_count_le_split(t, p, j);
    }
}

/// In an ordered sequence, the first `count_le` mappings stand at or before
/// `p` and the rest after it.
pub proof fn lemma_count_le_sorted(s: Seq<MappingView>, p: Position)
    requires
        sorted(s),
    ensures
        count_le(s, p) <= s.len(),
        forall|k: int| 0 <= k < count_le(s, p) ==> pos_le(#[trigger] s[k].generated, p),
        forall|k: int| count_le(s, p) <= k < s.len() ==> !pos_le(#[trigger] s[k].generated, p),
    decreases s.len(),
{
    if s.len() > 0 {
        let t = s.drop_last();
        assert(sorted(t)) by {
            assert forall|i: int, j: int| 0 <= i < j < t.len() implies pos_le(
                t[i].generated,
                t[j].generated,
            ) by {
                assert(t[i] == s[i] && t[j] == s[j]);
            }
        }
        lemma_count_le_sorted(t, p);
        if pos_le(s.last().generated, p) {
            assert forall|k: int| 0 <= k < s.len() implies pos_le(#[trigger] s[k].generated, p) by {
                if k < s.len() - 1 {
                    assert(pos_le(s[k].generated, s[s.len() - 1].generated));
                }
            }
        } else {
            assert forall|k: int| 0 <= k < count_le(s, p) implies pos_le(
                #[trigger] s[k].generated,
                p,
            ) by {
                assert(t[k] == s[k]);
            }
            assert forall|k: int| count_le(s, p) <= k < s.len() implies !pos_le(
                #[trigger] s[k].generated,
                p,
            ) by {
                if k < t.len() {
                    assert(t[k] == s[k]);
                }
            }
        }
    }
}

/// Inserting keeps an ordered sequence ordered.
pub proof fn lemma_insert_sorted(s: Seq<MappingView>, m: MappingView)
    requires
        sorted(s),
    ensures
        sorted(insert_sorted(s, m)),
        insert_sorted(s, m).len() == s.len() + 1,
{
    lemma_count_le_sorted(s, m.generated);
    let k = count_le(s, m.generated) as int;
    let r = insert_sorted(s, m);
    assert forall|i: int, j: int| 0 <= i < j < r.len() implies pos_le(
        r[i].generated,
        r[j].generated,
    ) by {
        if j < k {
            assert(r[i] == s[i] && r[j] == s[j]);
        } else if j == k {
            assert(r[i] == s[i]);
        } else if i < k {
            assert(r[i] == s[i] && r[j] == s[j - 1]);
            assert(pos_le(s[i].generated, m.generated));
        } else if i == k {
            assert(r[j] == s[j - 1]);
        } else {
            assert(r[i] == s[i - 1] && r[j] == s[j - 1]);
        }
    }
}

/// Every index is ordered by generated position and holds one entry per
/// mapping.
pub proof fn lemma_index_sorted(ms: Seq<MappingView>)
    ensures
        sorted(index_of(ms)),
        index_of(ms).len() == ms.len(),
    decreases ms.len(),
{
    if ms.len() > 0 {
        lemma_index_sorted(ms.drop_last());
        lemma_insert_sorted(index_of(ms.drop_last()), ms.last());
    }
}

/// A lookup before every recorded mapping returns the first mapping.
pub proof fn lemma_lookup_before_first(ms: Seq<MappingView>, p: Position)
    requires
        index_of(ms).len() > 0,
        !pos_le(index_of(ms)[0].generated, p),
    ensures
        lookup_spec(index_of(ms), p) == index_of(ms)[0],
{
    let s = index_of(ms);
    lemma_index_sorted(ms);
    lemma_count_le_sorted(s, p);
    if count_le(s, p) > 0 {
        assert(pos_le(s[0].generated, p));
    }
}

/// A lookup in an index without mappings returns the sentinel, whose source
/// and name are empty.
pub proof fn lemma_lookup_empty(p: Position)
    ensures
        lookup_spec(index_of(Seq::empty()), p) == sentinel(),
        sentinel().source.len() == 0,
        sentinel().name.len() == 0,
{
}

/// Lookup is monotonic: a later position never finds an earlier mapping.
pub proof fn lemma_lookup_monotone(ms: Seq<MappingView>, p1: Position, p2: Position)
    requires
        pos_le(p1, p2),
    ensures
        pos_le(lookup_spec(index_of(ms), p1).generated, lookup_spec(index_of(ms), p2).generated),
{
    let s = index_of(ms);
    lemma_index_sorted(ms);
    if s.len() > 0 {
        lemma_count_le_sorted(s, p1);
        lemma_count_le_sorted(s, p2);
        let k1 = count_le(s, p1) as int;
        let k2 = count_le(s, p2) as int;
        if k1 > k2 {
            assert(pos_le(s[k2].generated, p1));
            assert(!pos_le(s[k2].generated, p2));
        }
    }
}

/// A loaded source map: its mappings, ordered by generated position.
/// Built once, then only read.
pub struct Cache {
    mappings: Vec<Mapping>,
}

impl View for Cache {
    type V = Seq<MappingView>;

    closed spec fn view(&self) -> Seq<MappingView> {
        views(self.mappings@)
    }
}

impl Cache {
    #[verifier::type_invariant]
    spec fn ordered(&self) -> bool {
        sorted(views(self.mappings@))
    }

    /// Builds the index of `ms`.
    pub fn from_mappings(ms: Vec<Mapping>) -> (c: Cache)
        ensures
            c@ == index_of(views(ms@)),
    {
        let mut out: Vec<Mapping> = Vec::new();
        let mut i: usize = 0;
        assert(views(out@) =~= index_of(views(ms@).take(0)));
        while i < ms.len()
            invariant
                i <= ms@.len(),
                views(out@) == index_of(views(ms@).take(i as int)),
                sorted(views(out@)),
            decreases ms@.len() - i,
        {
            let m = ms[i].duplicate();
            let p = m.generated;
            let ghost s = views(out@);
            let mut j: usize = out.len();
            assert(s.take(j as int) =~= s);
            while j > 0 && (out[j - 1].generated.line > p.line || (out[j - 1].generated.line
                == p.line && out[j - 1].generated.column > p.column))
                invariant
                    j <= out@.len(),
                    s == views(out@),
                    count_le(s, p) == count_le(s.take(j as int), p),
                    forall|k: int| j <= k < s.len() ==> !pos_le(#[trigger] s[k].generated, p),
                decreases j,
            {
                assert(s.take(j as int).drop_last() =~= s.take(j - 1));
                j = j - 1;
            }
            proof {
                if j > 0 {
                    assert(s.take(j as int).last() == s[j - 1]);
                }
                assert(count_le(s, p) == j);
                let ghost pre = views(ms@).take(i as int);
                let ghost post = views(ms@).take(i + 1);
                assert(post.drop_last() =~= pre);
                assert(post.last() == m@);
                lemma_insert_sorted(s, m@);
            }
            out.insert(j, m);
            assert(views(out@) =~= s.insert(j as int, ms@[i as int]@));
            i = i + 1;
        }
        assert(views(ms@).take(ms@.len() as int) =~= views(ms@));
        Cache { mappings: out }
    }

    /// How many mappings the index holds.
    pub fn len(&self) -> (n: usize)
        ensures
            n == self@.len(),
    {
        self.mappings.len()
    }

    /// The mapping at `i` in generated order.
    pub fn get(&self, i: usize) -> (r: Mapping)
        requires
            i < self@.len(),
        ensures
            r@ == self@[i as int],
    {
        self.mappings[i].duplicate()
    }

    /// The last mapping whose generated position is at or before
    /// (`line`, `column`); the first mapping if there is none such; a
    /// mapping of zeros with empty source and name if the index is empty.
    pub fn lookup(&self, line: u32, column: u32) -> (r: Mapping)
        ensures
            r@ == lookup_spec(self@, Position { line, column }),
    {
        proof {
            use_type_invariant(self);
        }
        let n = self.mappings.len();
        if n == 0 {
            return Mapping {
                generated: Position { line: 0, column: 0 },
                original: Position { line: 0, column: 0 },
                source_index: None,
                name_index: None,
                source: String::new(),
                name: String::new(),
            };
        }
        let ghost s = self@;
        let ghost p = Position { line, column };
        let mut lo: usize = 0;
        let mut hi: usize = n;
        while lo < hi
            invariant
                s == views(self.mappings@),
                p == (Position { line, column }),
                sorted(s),
                n == s.len(),
                lo <= hi <= n,
                forall|k: int| 0 <= k < lo ==> pos_le(#[trigger] s[k].generated, p),
                forall|k: int| hi <= k < n ==> !pos_le(#[trigger] s[k].generated, p),
            decreases hi - lo,
        {
            let mid = lo + (hi - lo) / 2;
            let g = self.mappings[mid].generated;
            assert(s[mid as int].generated == g);
            if g.line < line || (g.line == line && g.column <= column) {
                proof {
                    assert forall|k: int| 0 <= k <= mid implies pos_le(
                        #[trigger] s[k].generated,
                        p,
                    ) by {
                        if k < mid {
                            assert(pos_le(s[k].generated, s[mid as int].generated));
                        }
                    }
                }
                lo = mid + 1;
            } else {
                proof {
                    assert forall|k: int| mid <= k < n implies !pos_le(
                        #[trigger] s[k].generated,
                        p,
                    ) by {
                        if k > mid {
                            assert(pos_le(s[mid as int].generated, s[k].generated));
                        }
                    }
                }
                hi = mid;
            }
        }
        proof {
            lemma_count_le_split(s, p, lo as int);
        }
        if lo == 0 {
            self.mappings[0].duplicate()
        } else {
            self.mappings[lo - 1].duplicate()
        }
    }
}

} // verus!
