//! The order in which textures are packed: by descending area, ties kept in
//! their input order.

use vstd::prelude::*;
use crate::image_extract::{infos, TextureData, TextureInfo};

verus! {

/// The area of a texture's image (not of its padded cell).
pub open spec fn tex_area(t: TextureInfo) -> int {
    t.texture.width * t.texture.height
}

/// The position at which `t` goes into `s`, searching from `start`: before the
/// first texture with a smaller area, or at the end.
pub open spec fn insert_pos(s: Seq<TextureInfo>, t: TextureInfo, start: int) -> int
    decreases s.len() - start,
{
    if start < 0 || start >= s.len() {
        s.len() as int
    } else if tex_area(s[start]) < tex_area(t) {
        start
    } else {
        insert_pos(s, t, start + 1)
    }
}

/// `s` sorted by descending area, textures of equal area kept in the order
/// they come in `s` (a stable insertion sort).
pub open spec fn sort_by_area_spec(s: Seq<TextureInfo>) -> Seq<TextureInfo>
    decreases s.len(),
{
    if s.len() == 0 {
        s
    } else {
        let p = sort_by_area_spec(s.drop_last());
        p.insert(insert_pos(p, s.last(), 0), s.last())
    }
}

/// No texture has a larger area than one before it.
pub open spec fn sorted_by_area(s: Seq<TextureInfo>) -> bool {
    forall|i: int, j: int| 0 <= i < j < s.len() ==> tex_area(s[i]) >= tex_area(s[j])
}

/// The insertion position lies after every texture of area at least that of
/// `t` that comes before it, and before one of smaller area.
pub proof fn lemma_insert_pos(s: Seq<TextureInfo>, t: TextureInfo, start: int)
    requires
        0 <= start <= s.len(),
    ensures
        start <= insert_pos(s, t, start) <= s.len(),
        forall|k: int| start <= k < insert_pos(s, t, start) ==> tex_area(s[k]) >= tex_area(t),
        insert_pos(s, t, start) < s.len() ==> tex_area(s[insert_pos(s, t, start)]) < tex_area(t),
    decreases s.len() - start,
{
    if start < s.len() && tex_area(s[start]) >= tex_area(t) {
        lemma_insert_pos(s, t, start + 1);
    }
}

fn texture_area(t: &TextureData) -> (a: u64)
    ensures
        a == tex_area(t@),
{
    let w = t.texture.width() as u64;
    let h = t.texture.height() as u64;
    proof {
        vstd::arithmetic::mul::lemma_mul_upper_bound(w as int, u32::MAX as int, h as int, u32::MAX as int);
    }
    w * h
}

/// Sorts the textures by descending area; textures of equal area keep their
/// order.
pub fn sort_by_area(images: &mut Vec<TextureData>)
    ensures
        infos(final(images)@) == sort_by_area_spec(infos(old(images)@)),
{
    let ghost s = infos(images@);
    let n = images.len();
    let mut i: usize = 0;
    assert(s.take(0) =~= Seq::<TextureInfo>::empty());
    assert(infos(images@) =~= sort_by_area_spec(s.take(0)) + s.skip(0));
    while i < n
        invariant
            n == s.len(),
            images@.len() == n,
            0 <= i <= n,
            infos(images@) == sort_by_area_spec(s.take(i as int)) + s.skip(i as int),
            sort_by_area_spec(s.take(i as int)).len() == i,
        decreases n - i,
    {
        let ghost p = sort_by_area_spec(s.take(i as int));
        let ghost before = images@;
        let x = images.remove(i);
        assert(x@ == s[i as int]) by {
            assert(infos(before)[i as int] == before[i as int]@);
            assert((p + s.skip(i as int))[i as int] == s[i as int]);
        }
        assert(infos(images@) =~= p + s.skip(i + 1)) by {
            assert(images@ =~= before.remove(i as int));
            assert(infos(images@) =~= infos(before).remove(i as int));
            assert((p + s.skip(i as int)).remove(i as int) =~= p + s.skip(i + 1));
        }
        let a = texture_area(&x);
        let mut j: usize = 0;
        while j < i && texture_area(&images[j]) >= a
            invariant
                0 <= j <= i,
                i < n,
                images@.len() == n - 1,
                infos(images@) == p + s.skip(i + 1),
                p.len() == i,
                a == tex_area(x@),
                insert_pos(p, x@, 0) == insert_pos(p, x@, j as int),
            decreases i - j,
        {
            assert(infos(images@)[j as int] == p[j as int]);
            j = j + 1;
        }
        proof {
            if j < i {
                assert(infos(images@)[j as int] == p[j as int]);
            }
            assert(insert_pos(p, x@, j as int) == j);
        }
        let ghost mid = images@;
        images.insert(j, x);
        proof {
            assert(images@ =~= mid.insert(j as int, x));
            assert(infos(images@) =~= infos(mid).insert(j as int, x@));
            assert((p + s.skip(i + 1)).insert(j as int, x@) =~= p.insert(j as int, x@) + s.skip(i + 1));
            assert(s.take(i + 1).drop_last() =~= s.take(i as int));
            assert(s.take(i + 1).last() == s[i as int]);
            lemma_insert_pos(p, x@, 0);
            assert(infos(images@) =~= p.insert(j as int, x@) + s.skip(i + 1));
        }
        i = i + 1;
    }
    assert(s.take(n as int) =~= s);
    assert(infos(images@) =~= sort_by_area_spec(s));
}

/// The sorted list is sorted by descending area.
pub proof fn lemma_sort_sorted(s: Seq<TextureInfo>)
    ensures
        sorted_by_area(sort_by_area_spec(s)),
    decreases s.len(),
{
    if s.len() > 0 {
        let p = sort_by_area_spec(s.drop_last());
        let t = s.last();
        lemma_sort_sorted(s.drop_last());
        lemma_insert_pos(p, t, 0);
        let j = insert_pos(p, t, 0);
        let q = p.insert(j, t);
        assert forall|a: int, b: int| 0 <= a < b < q.len() implies tex_area(q[a]) >= tex_area(q[b]) by {
            if b == j {
            } else if a == j {
                assert(q[b] == p[b - 1]);
                assert(tex_area(p[j]) < tex_area(t));
                if b - 1 > j {
                    assert(tex_area(p[j]) >= tex_area(p[b - 1]));
                }
            }
        }
    }
}

/// The sorted list holds the same textures, each as often, as the input.
pub proof fn lemma_sort_permutes(s: Seq<TextureInfo>)
    ensures
        sort_by_area_spec(s).to_multiset() == s.to_multiset(),
        sort_by_area_spec(s).len() == s.len(),
    decreases s.len(),
{
    broadcast use vstd::seq_lib::group_to_multiset_ensures;
    if s.len() > 0 {
        let p = sort_by_area_spec(s.drop_last());
        lemma_sort_permutes(s.drop_last());
        lemma_insert_pos(p, s.last(), 0);
        assert(s.drop_last().push(s.last()) =~= s);
    }
}

/// The textures of area `a`.
pub open spec fn of_area(a: int) -> spec_fn(TextureInfo) -> bool {
    |t: TextureInfo| tex_area(t) == a
}

/// The sort is stable: for every area, the textures of that area come out in
/// the order in which they came in.
pub proof fn lemma_sort_stable(s: Seq<TextureInfo>, a: int)
    ensures
        sort_by_area_spec(s).filter(of_area(a)) == s.filter(of_area(a)),
    decreases s.len(),
{
    reveal(Seq::filter);
    if s.len() > 0 {
        let pred = of_area(a);
        let d = s.drop_last();
        let t = s.last();
        let p = sort_by_area_spec(d);
        lemma_sort_stable(d, a);
        lemma_sort_sorted(d);
        lemma_sort_permutes(d);
        lemma_insert_pos(p, t, 0);
        let j = insert_pos(p, t, 0);
        let front = p.take(j);
        let back = p.skip(j);
        assert(p =~= front + back);
        assert(p.insert(j, t) =~= front + seq![t] + back);
        Seq::filter_distributes_over_add(front, back, pred);
        Seq::filter_distributes_over_add(front + seq![t], back, pred);
        Seq::filter_distributes_over_add(front, seq![t], pred);
        assert(seq![t].drop_last() =~= Seq::<TextureInfo>::empty());
        assert(seq![t].last() == t);
        assert(Seq::<TextureInfo>::empty().filter(pred) =~= Seq::<TextureInfo>::empty());
        if pred(t) {
            assert(seq![t].filter(pred) =~= seq![t]);
            assert(back.all(|x: TextureInfo| !pred(x))) by {
                assert forall|k: int| 0 <= k < back.len() implies !pred(#[trigger] back[k]) by {
                    assert(back[k] == p[j + k]);
                    if k > 0 {
                        assert(tex_area(p[j]) >= tex_area(p[j + k]));
                    }
                }
            }
            back.lemma_all_neg_filter_empty(pred);
            assert(back.filter(pred) =~= Seq::<TextureInfo>::empty());
            assert(sort_by_area_spec(s).filter(pred) =~= p.filter(pred).push(t));
        } else {
            assert(seq![t].filter(pred) =~= Seq::<TextureInfo>::empty());
            assert(sort_by_area_spec(s).filter(pred) =~= p.filter(pred));
        }
    }
}

/// No two textures, at different positions, have the same area.
pub open spec fn areas_distinct(s: Seq<TextureInfo>) -> bool {
    forall|i: int, j: int| 0 <= i < j < s.len() ==> tex_area(s[i]) != tex_area(s[j])
}

/// Each texture has a larger area than every one after it.
pub open spec fn strictly_sorted_by_area(s: Seq<TextureInfo>) -> bool {
    forall|i: int, j: int| 0 <= i < j < s.len() ==> tex_area(s[i]) > tex_area(s[j])
}

/// Sorting textures of distinct areas orders them strictly.
pub proof fn lemma_sort_strict(s: Seq<TextureInfo>)
    requires
        areas_distinct(s),
    ensures
        strictly_sorted_by_area(sort_by_area_spec(s)),
    decreases s.len(),
{
    broadcast use vstd::seq_lib::group_to_multiset_ensures;
    if s.len() > 0 {
        let d = s.drop_last();
        let t = s.last();
        let p = sort_by_area_spec(d);
        assert(areas_distinct(d)) by {
            assert forall|i: int, j: int| 0 <= i < j < d.len() implies tex_area(d[i]) != tex_area(d[j]) by {
                assert(d[i] == s[i] && d[j] == s[j]);
            }
        }
        lemma_sort_strict(d);
        lemma_sort_permutes(d);
        lemma_insert_pos(p, t, 0);
        let j = insert_pos(p, t, 0);
        assert forall|k: int| 0 <= k < p.len() implies tex_area(#[trigger] p[k]) != tex_area(t) by {
            assert(p.to_multiset().count(p[k]) > 0);
            assert(d.contains(p[k]));
            let i = choose|i: int| 0 <= i < d.len() && d[i] == p[k];
            assert(s[i] == d[i]);
            assert(s[s.len() - 1] == t);
        }
        let q = p.insert(j, t);
        assert forall|a: int, b: int| 0 <= a < b < q.len() implies tex_area(q[a]) > tex_area(q[b]) by {
            if b < j {
            } else if b == j {
                assert(q[a] == p[a]);
                assert(tex_area(p[a]) >= tex_area(t));
            } else if a == j {
                assert(q[b] == p[b - 1]);
                assert(tex_area(p[j]) < tex_area(t));
                if b - 1 > j {
                    assert(tex_area(p[j]) > tex_area(p[b - 1]));
                }
            } else if a < j {
                assert(q[a] == p[a] && q[b] == p[b - 1]);
            } else {
                assert(q[a] == p[a - 1] && q[b] == p[b - 1]);
            }
        }
    }
}

/// Two strictly ordered lists holding the same textures are equal.
pub proof fn lemma_strict_same_elements(r1: Seq<TextureInfo>, r2: Seq<TextureInfo>)
    requires
        strictly_sorted_by_area(r1),
        strictly_sorted_by_area(r2),
        forall|x: TextureInfo| r1.contains(x) <==> r2.contains(x),
    ensures
        r1 == r2,
    decreases r1.len(),
{
    if r1.len() == 0 {
        if r2.len() > 0 {
            assert(r2.contains(r2[0]));
        }
        assert(r1 =~= r2);
    } else {
        assert(r1.contains(r1[0]));
        let j = choose|j: int| 0 <= j < r2.len() && r2[j] == r1[0];
        assert(r2.contains(r2[0]));
        let i = choose|i: int| 0 <= i < r1.len() && r1[i] == r2[0];
        if i > 0 {
            assert(tex_area(r1[0]) > tex_area(r1[i]));
            if j > 0 {
                assert(tex_area(r2[0]) > tex_area(r2[j]));
            }
        }
        assert(i == 0);
        let d1 = r1.drop_first();
        let d2 = r2.drop_first();
        assert forall|x: TextureInfo| d1.contains(x) <==> d2.contains(x) by {
            if d1.contains(x) {
                let k = choose|k: int| 0 <= k < d1.len() && d1[k] == x;
                assert(r1[k + 1] == x);
                assert(tex_area(r1[0]) > tex_area(x));
                assert(r1.contains(x));
                let m = choose|m: int| 0 <= m < r2.len() && r2[m] == x;
                assert(m != 0);
                assert(d2[m - 1] == x);
            }
            if d2.contains(x) {
                let k = choose|k: int| 0 <= k < d2.len() && d2[k] == x;
                assert(r2[k + 1] == x);
                assert(tex_area(r2[0]) > tex_area(x));
                assert(r2.contains(x));
                let m = choose|m: int| 0 <= m < r1.len() && r1[m] == x;
                assert(m != 0);
                assert(d1[m - 1] == x);
            }
        }
        assert(strictly_sorted_by_area(d1)) by {
            assert forall|a: int, b: int| 0 <= a < b < d1.len() implies tex_area(d1[a]) > tex_area(d1[b]) by {
                assert(d1[a] == r1[a + 1] && d1[b] == r1[b + 1]);
            }
        }
        assert(strictly_sorted_by_area(d2)) by {
            assert forall|a: int, b: int| 0 <= a < b < d2.len() implies tex_area(d2[a]) > tex_area(d2[b]) by {
                assert(d2[a] == r2[a + 1] && d2[b] == r2[b + 1]);
            }
        }
        lemma_strict_same_elements(d1, d2);
        assert(r1 =~= seq![r1[0]] + d1);
        assert(r2 =~= seq![r2[0]] + d2);
    }
}

/// A texture found at two positions occurs at least twice.
proof fn lemma_two_positions_count(s: Seq<TextureInfo>, i: int, j: int)
    requires
        0 <= i < s.len(),
        0 <= j < s.len(),
        i != j,
        s[i] == s[j],
    ensures
        s.to_multiset().count(s[i]) >= 2,
{
    broadcast use vstd::seq_lib::group_to_multiset_ensures;
    let r = s.remove(i);
    let k = if j < i { j } else { j - 1 };
    assert(r[k] == s[i]);
    assert(r.contains(s[i]));
    assert(r.to_multiset().count(s[i]) > 0);
}

/// A texture that occurs at least twice is found at two positions.
proof fn lemma_count_two_positions(s: Seq<TextureInfo>, x: TextureInfo) -> (pos: (int, int))
    requires
        s.to_multiset().count(x) >= 2,
    ensures
        0 <= pos.0 < s.len(),
        0 <= pos.1 < s.len(),
        pos.0 != pos.1,
        s[pos.0] == x,
        s[pos.1] == x,
{
    broadcast use vstd::seq_lib::group_to_multiset_ensures;
    assert(s.contains(x));
    let a = choose|a: int| 0 <= a < s.len() && s[a] == x;
    let r = s.remove(a);
    assert(r.to_multiset().count(x) > 0);
    assert(r.contains(x));
    let b = choose|b: int| 0 <= b < r.len() && r[b] == x;
    if b < a {
        (a, b)
    } else {
        assert(s[b + 1] == r[b]);
        (a, b + 1)
    }
}

/// Distinct areas carry over to any list holding the same textures as often.
pub proof fn lemma_distinct_transfer(s1: Seq<TextureInfo>, s2: Seq<TextureInfo>)
    requires
        s1.to_multiset() == s2.to_multiset(),
        areas_distinct(s1),
    ensures
        areas_distinct(s2),
{
    broadcast use vstd::seq_lib::group_to_multiset_ensures;
    assert forall|i: int, j: int| 0 <= i < j < s2.len() implies tex_area(s2[i]) != tex_area(s2[j]) by {
        if tex_area(s2[i]) == tex_area(s2[j]) {
            let x = s2[i];
            let y = s2[j];
            if x == y {
                lemma_two_positions_count(s2, i, j);
                let (a, b) = lemma_count_two_positions(s1, x);
                if a < b {
                    assert(tex_area(s1[a]) != tex_area(s1[b]));
                } else {
                    assert(tex_area(s1[b]) != tex_area(s1[a]));
                }
            } else {
                assert(s2.contains(x) && s2.contains(y));
                assert(s1.contains(x) && s1.contains(y));
                let a = choose|a: int| 0 <= a < s1.len() && s1[a] == x;
                let b = choose|b: int| 0 <= b < s1.len() && s1[b] == y;
                if a < b {
                    assert(tex_area(s1[a]) != tex_area(s1[b]));
                } else {
                    assert(tex_area(s1[b]) != tex_area(s1[a]));
                }
            }
        }
    }
}

/// Textures of distinct areas sort to the same list in whatever order they
/// are given.
pub proof fn lemma_sort_permutation(s1: Seq<TextureInfo>, s2: Seq<TextureInfo>)
    requires
        s1.to_multiset() == s2.to_multiset(),
        areas_distinct(s1),
    ensures
        sort_by_area_spec(s1) == sort_by_area_spec(s2),
{
    broadcast use vstd::seq_lib::group_to_multiset_ensures;
    lemma_distinct_transfer(s1, s2);
    lemma_sort_strict(s1);
    lemma_sort_strict(s2);
    lemma_sort_permutes(s1);
    lemma_sort_permutes(s2);
    let r1 = sort_by_area_spec(s1);
    let r2 = sort_by_area_spec(s2);
    assert forall|x: TextureInfo| r1.contains(x) <==> r2.contains(x) by {
        assert(r1.contains(x) <==> r1.to_multiset().count(x) > 0);
        assert(r2.contains(x) <==> r2.to_multiset().count(x) > 0);
    }
    lemma_strict_same_elements(r1, r2);
}

} // verus!
