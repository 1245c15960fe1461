use vstd::prelude::*;

use crate::shapes::ShapeKey;

verus! {

/// The containers after a ray passes one surface of `k`: leaving `k` if the
/// ray was inside it, entering it otherwise.
pub open spec fn pass_surface(c: Seq<ShapeKey>, k: ShapeKey) -> Seq<ShapeKey> {
    if c.contains(k) {
        c.remove(choose|j: int| 0 <= j < c.len() && c[j] == k)
    } else {
        c.push(k)
    }
}

/// The ordered list of shapes the ray is inside of after the first `n`
/// intersections of `objects` (in order of entry).
pub open spec fn containers(objects: Seq<ShapeKey>, n: nat) -> Seq<ShapeKey>
    decreases n,
{
    if n == 0 {
        Seq::empty()
    } else {
        pass_surface(containers(objects, (n - 1) as nat), objects[n - 1])
    }
}

/// The media on the two sides of the surface hit at one intersection, each
/// given as a position in the intersection list whose object is that medium;
/// `None` stands for empty space.
#[derive(Clone, Copy, Debug, PartialEq, Eq, Structural)]
pub struct MediaAtHit {
    /// The medium the ray travels in before the hit (n1).
    pub leaving: Option<usize>,
    /// The medium the ray travels in after the hit (n2).
    pub entering: Option<usize>,
}

/// `pos` names the innermost container of `c`, or `None` when `c` is empty.
pub open spec fn names_innermost(objects: Seq<ShapeKey>, c: Seq<ShapeKey>, pos: Option<usize>) -> bool {
    match pos {
        None => c.len() == 0,
        Some(p) => c.len() > 0 && p < objects.len() && objects[p as int] == c.last(),
    }
}

proof fn lemma_containers_unique(objects: Seq<ShapeKey>, n: nat)
    requires
        n <= objects.len(),
    ensures
        containers(objects, n).no_duplicates(),
    decreases n,
{
    if n > 0 {
        lemma_containers_unique(objects, (n - 1) as nat);
        let c = containers(objects, (n - 1) as nat);
        let k = objects[n - 1];
        if c.contains(k) {
            let j = choose|j: int| 0 <= j < c.len() && c[j] == k;
            let d = c.remove(j);
            assert forall|a: int, b: int| 0 <= a < d.len() && 0 <= b < d.len() && a != b implies d[a]
                != d[b] by {
                let a2 = if a < j { a } else { a + 1 };
                let b2 = if b < j { b } else { b + 1 };
                assert(d[a] == c[a2] && d[b] == c[b2]);
            }
        } else {
            let d = c.push(k);
            assert forall|a: int, b: int| 0 <= a < d.len() && 0 <= b < d.len() && a != b implies d[a]
                != d[b] by {
                if a < c.len() && b < c.len() {
                    assert(d[a] == c[a] && d[b] == c[b]);
                } else if a < c.len() {
                    assert(d[a] == c[a]);
                } else if b < c.len() {
                    assert(d[b] == c[b]);
                }
            }
        }
    }
}

/// The refractive boundary at intersection `hit` of an ordered intersection
/// list whose objects are `objects`: walking the list in order, each object
/// is entered at its first surface and left at the next, and the innermost
/// shape entered before and after passing intersection `hit` gives n1 and n2.
pub fn media_at_hit(objects: &Vec<ShapeKey>, hit: usize) -> (r: MediaAtHit)
    requires
        hit < objects.len(),
    ensures
        names_innermost(objects@, containers(objects@, hit as nat), r.leaving),
        names_innermost(objects@, containers(objects@, (hit + 1) as nat), r.entering),
{
    let mut inside: Vec<usize> = Vec::new();
    let mut leaving: Option<usize> = None;
    let mut i: usize = 0;
    while i <= hit
        invariant
            hit < objects.len(),
            i <= hit + 1,
            forall|j: int| 0 <= j < inside.len() ==> inside[j] < objects.len(),
            inside@.map_values(|p: usize| objects@[p as int]) == containers(objects@, i as nat),
            i > hit ==> names_innermost(objects@, containers(objects@, hit as nat), leaving),
        decreases hit + 1 - i,
    {
        let ghost c = containers(objects@, i as nat);
        proof {
            lemma_containers_unique(objects@, i as nat);
        }
        if i == hit {
            leaving = match inside.last() {
                Some(p) => Some(*p),
                None => None,
            };
            assert(c.len() == inside.len());
            if inside.len() > 0 {
                assert(c.last() == objects@[inside@.last() as int]);
            }
        }
        let k = objects[i];
        let mut found: Option<usize> = None;
        let mut j: usize = 0;
        while j < inside.len()
            invariant
                j <= inside.len(),
                i < objects.len(),
                k == objects@[i as int],
                forall|q: int| 0 <= q < inside.len() ==> inside[q] < objects.len(),
                inside@.map_values(|p: usize| objects@[p as int]) == c,
                found is None ==> forall|q: int| 0 <= q < j ==> c[q] != k,
                found matches Some(q) ==> q < inside.len() && c[q as int] == k,
            decreases inside.len() - j,
        {
            if found.is_none() && objects[inside[j]] == k {
                found = Some(j);
            }
            j = j + 1;
        }
        match found {
            Some(q) => {
                proof {
                    let w = choose|w: int| 0 <= w < c.len() && c[w] == k;
                    assert(c[q as int] == k);
                    assert(c.contains(k));
                    assert(c[w] == k);
                    assert(w == q as int);
                }
                inside.remove(q);
                assert(inside@.map_values(|p: usize| objects@[p as int]) =~= c.remove(q as int));
            },
            None => {
                assert(!c.contains(k));
                inside.push(i);
                assert(inside@.map_values(|p: usize| objects@[p as int]) =~= c.push(k));
            },
        }
        i = i + 1;
    }
    let entering = match inside.last() {
        Some(p) => Some(*p),
        None => None,
    };
    proof {
        let c = containers(objects@, (hit + 1) as nat);
        assert(c.len() == inside.len());
        if inside.len() > 0 {
            assert(c.last() == objects@[inside@.last() as int]);
        }
    }
    MediaAtHit { leaving, entering }
}

} // verus!
