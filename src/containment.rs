use vstd::prelude::*;

verus! {

/// Position of the first occurrence of `x` in `s` (meaningful when `s` holds `x`).
pub open spec fn first_index(s: Seq<usize>, x: usize) -> int {
    choose|i: int| 0 <= i < s.len() && s[i] == x && forall|j: int| 0 <= j < i ==> s[j] != x
}

/// Crossing the surface of `x`: leave it if the ray is inside it, enter it otherwise.
pub open spec fn toggled(s: Seq<usize>, x: usize) -> Seq<usize> {
    if s.contains(x) {
        s.remove(first_index(s, x))
    } else {
        s.push(x)
    }
}

/// The objects a ray is inside after crossing the first `k` surfaces of `objects`
/// (listed in order of increasing `t`), the one entered most recently last.
pub open spec fn containers(objects: Seq<usize>, k: int) -> Seq<usize>
    decreases k,
{
    if k <= 0 {
        Seq::empty()
    } else {
        toggled(containers(objects, k - 1), objects[k - 1])
    }
}

/// The object entered most recently among those of a containment stack, if any:
/// the medium the ray travels through.
pub open spec fn innermost(s: Seq<usize>) -> Option<usize> {
    if s.len() == 0 {
        None
    } else {
        Some(s.last())
    }
}

/// Applies one surface crossing to the stack of enclosing objects.
pub fn toggle(stack: &mut Vec<usize>, object: usize)
    ensures
        final(stack)@ == toggled(old(stack)@, object),
{
    let mut j: usize = 0;
    let mut found = false;
    while j < stack.len() && !found
        invariant
            j <= stack.len(),
            found ==> j < stack.len() && stack@[j as int] == object,
            forall|k: int| 0 <= k < j ==> stack@[k] != object,
        decreases stack.len() - j + (if found { 0int } else { 1int }),
    {
        if stack[j] == object {
            found = true;
        } else {
            j = j + 1;
        }
    }
    if found {
        proof {
            let s = stack@;
            let f = first_index(s, object);
            assert(0 <= j < s.len() && s[j as int] == object && forall|k: int|
                0 <= k < j ==> s[k] != object);
            if f < j {
                assert(s[f] != object);
            }
            if j < f {
                assert(s[j as int] != object);
            }
        }
        stack.remove(j);
    } else {
        stack.push(object);
    }
}

/// Finds which objects lie on either side of the surface crossed at position
/// `hit` of `objects` (the object of each intersection along one ray, sorted by
/// `t`). The first result is the innermost object the ray is inside just
/// before the crossing, the second the innermost one just after it; `None`
/// stands for empty space. Their refractive indices are `n1` and `n2`.
pub fn refraction_sides(objects: &Vec<usize>, hit: usize) -> (r: (Option<usize>, Option<usize>))
    requires
        hit < objects.len(),
    ensures
        r.0 == innermost(containers(objects@, hit as int)),
        r.1 == innermost(containers(objects@, hit + 1)),
{
    let mut stack: Vec<usize> = Vec::new();
    let mut i: usize = 0;
    while i < hit
        invariant
            i <= hit < objects.len(),
            stack@ == containers(objects@, i as int),
        decreases hit - i,
    {
        toggle(&mut stack, objects[i]);
        i = i + 1;
    }
    let before = if stack.len() == 0 {
        None
    } else {
        Some(stack[stack.len() - 1])
    };
    toggle(&mut stack, objects[hit]);
    let after = if stack.len() == 0 {
        None
    } else {
        Some(stack[stack.len() - 1])
    };
    (before, after)
}

/// How many of the first `k` surface crossings in `objects` belong to `x`.
pub open spec fn crossings(objects: Seq<usize>, k: int, x: usize) -> nat
    decreases k,
{
    if k <= 0 {
        0
    } else {
        crossings(objects, k - 1, x) + if objects[k - 1] == x {
            1nat
        } else {
            0nat
        }
    }
}

/// After any number of crossings along a ray, the stack holds each object at
/// most once, and holds exactly those objects whose surface the ray has
/// crossed an odd number of times: it is inside them.
pub proof fn lemma_containers_are_odd_crossings(objects: Seq<usize>, k: int)
    requires
        0 <= k <= objects.len(),
    ensures
        containers(objects, k).no_duplicates(),
        forall|x: usize| #[trigger]
            containers(objects, k).contains(x) <==> crossings(objects, k, x) % 2 == 1,
    decreases k,
{
    if k > 0 {
        lemma_containers_are_odd_crossings(objects, k - 1);
        let s = containers(objects, k - 1);
        let o = objects[k - 1];
        let t = containers(objects, k);
        assert(t == toggled(s, o));
        if s.contains(o) {
            let i = first_index(s, o);
            let w = choose|w: int| 0 <= w < s.len() && s[w] == o;
            assert(exists|i: int|
                0 <= i < s.len() && s[i] == o && forall|j: int| 0 <= j < i ==> s[j] != o) by {
                lemma_first_occurrence(s, o, w);
            }
            assert(0 <= i < s.len() && s[i] == o);
            assert(t == s.remove(i));
            assert forall|a: int, b: int| 0 <= a < t.len() && 0 <= b < t.len() && a != b implies t[a]
                != t[b] by {
                let a0 = if a < i { a } else { a + 1 };
                let b0 = if b < i { b } else { b + 1 };
                assert(t[a] == s[a0] && t[b] == s[b0]);
            }
            assert forall|x: usize| #[trigger]
                t.contains(x) <==> crossings(objects, k, x) % 2 == 1 by {
                if x == o {
                    if t.contains(x) {
                        let a = choose|a: int| 0 <= a < t.len() && t[a] == x;
                        let a0 = if a < i { a } else { a + 1 };
                        assert(s[a0] == x && a0 != i);
                    }
                } else {
                    if s.contains(x) {
                        let a = choose|a: int| 0 <= a < s.len() && s[a] == x;
                        assert(a != i);
                        let a1 = if a < i { a } else { a - 1 };
                        assert(t[a1] == x);
                    }
                    if t.contains(x) {
                        let a = choose|a: int| 0 <= a < t.len() && t[a] == x;
                        let a0 = if a < i { a } else { a + 1 };
                        assert(s[a0] == x);
                    }
                }
            }
        } else {
            assert(t == s.push(o));
            assert forall|a: int, b: int| 0 <= a < t.len() && 0 <= b < t.len() && a != b implies t[a]
                != t[b] by {
                if a == s.len() {
                    assert(t[b] == s[b]);
                } else if b == s.len() {
                    assert(t[a] == s[a]);
                }
            }
            assert forall|x: usize| #[trigger]
                t.contains(x) <==> crossings(objects, k, x) % 2 == 1 by {
                if x == o {
                    assert(t[s.len() as int] == x);
                } else {
                    if s.contains(x) {
                        let a = choose|a: int| 0 <= a < s.len() && s[a] == x;
                        assert(t[a] == x);
                    }
                    if t.contains(x) {
                        let a = choose|a: int| 0 <= a < t.len() && t[a] == x;
                        assert(a < s.len());
                        assert(s[a] == x);
                    }
                }
            }
        }
    }
}

proof fn lemma_first_occurrence(s: Seq<usize>, x: usize, w: int)
    requires
        0 <= w < s.len(),
        s[w] == x,
    ensures
        exists|i: int| 0 <= i < s.len() && s[i] == x && forall|j: int| 0 <= j < i ==> s[j] != x,
    decreases w,
{
    if exists|j: int| 0 <= j < w && s[j] == x {
        let j = choose|j: int| 0 <= j < w && s[j] == x;
        lemma_first_occurrence(s, x, j);
    } else {
        assert(0 <= w < s.len() && s[w] == x && forall|j: int| 0 <= j < w ==> s[j] != x);
    }
}

} // verus!
