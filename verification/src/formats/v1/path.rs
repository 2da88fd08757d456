use vstd::prelude::*;

verus! {

/// The byte that separates the components of a path.
pub const SEPARATOR: u8 = 47u8;

/// The byte sequences of `p` between separators, empty ones included.
pub open spec fn segments(p: Seq<u8>) -> Seq<Seq<u8>>
    decreases p.len(),
{
    if p.len() == 0 {
        seq![Seq::empty()]
    } else {
        let s = segments(p.drop_last());
        if p.last() == SEPARATOR {
            s.push(Seq::empty())
        } else {
            s.update(s.len() - 1, s.last().push(p.last()))
        }
    }
}

/// A segment that names something: not empty, and not `.` (which names the
/// current directory and is dropped).
pub open spec fn is_component(s: Seq<u8>) -> bool {
    s.len() > 0 && s != seq![46u8]
}

/// The segments that name something, in order.
pub open spec fn keep_components(segs: Seq<Seq<u8>>) -> Seq<Seq<u8>>
    decreases segs.len(),
{
    if segs.len() == 0 {
        Seq::empty()
    } else {
        let k = keep_components(segs.drop_last());
        if is_component(segs.last()) {
            k.push(segs.last())
        } else {
            k
        }
    }
}

/// The components of a path: its segments between separators, without the
/// empty ones (repeated, leading or trailing separators) and without `.`.
pub open spec fn path_components(p: Seq<u8>) -> Seq<Seq<u8>> {
    keep_components(segments(p))
}

/// A path that starts at the root.
pub open spec fn path_is_absolute(p: Seq<u8>) -> bool {
    p.len() > 0 && p[0] == SEPARATOR
}

/// A path that names a file inside a directory: it has a last component,
/// and that component is not `..`.
pub open spec fn names_entry(p: Seq<u8>) -> bool {
    let c = path_components(p);
    c.len() > 0 && c.last() != seq![46u8, 46u8]
}

fn is_component_exec(s: &Vec<u8>) -> (r: bool)
    ensures
        r == is_component(s@),
{
    if s.len() == 0 {
        return false;
    }
    if s.len() == 1 && s[0] == 46u8 {
        assert(s@ =~= seq![46u8]);
        return false;
    }
    assert(s@.len() != 1 || s@[0] != 46u8);
    proof {
        if s@ == seq![46u8] {
            assert(s@[0] == seq![46u8][0]);
        }
    }
    true
}

/// Splits a path into its components.
pub fn components(path: &[u8]) -> (r: Vec<Vec<u8>>)
    ensures
        r.deep_view() == path_components(path@),
{
    let mut out: Vec<Vec<u8>> = Vec::new();
    let mut cur: Vec<u8> = Vec::new();
    let ghost mut done: Seq<Seq<u8>> = Seq::empty();
    let mut i: usize = 0;
    while i < path.len()
        invariant
            0 <= i <= path@.len(),
            segments(path@.take(i as int)) == done.push(cur@),
            out.deep_view() == keep_components(done),
        decreases path@.len() - i,
    {
        let c = path[i];
        proof {
            assert(path@.take(i + 1).drop_last() =~= path@.take(i as int));
            assert(path@.take(i + 1).last() == c);
        }
        if c == SEPARATOR {
            let keep = is_component_exec(&cur);
            let finished = cur;
            cur = Vec::new();
            proof {
                assert(done.push(finished@).drop_last() =~= done);
                assert(done.push(finished@).last() == finished@);
            }
            let ghost fv = finished@;
            if keep {
                let ghost before = out.deep_view();
                out.push(finished);
                proof {
                    assert(out@[before.len() as int].deep_view() =~= fv);
                    assert(out.deep_view() =~= before.push(fv));
                }
            }
            proof {
                done = done.push(fv);
                assert(cur@ =~= Seq::<u8>::empty());
                assert(segments(path@.take(i + 1)) =~= done.push(cur@));
            }
        } else {
            let ghost old_cur = cur@;
            cur.push(c);
            proof {
                let s = segments(path@.take(i as int));
                assert(s == done.push(old_cur));
                assert(s.last() == old_cur);
                assert(segments(path@.take(i + 1)) =~= done.push(cur@));
            }
        }
        i = i + 1;
    }
    proof {
        assert(path@.take(path@.len() as int) =~= path@);
        assert(done.push(cur@).drop_last() =~= done);
        assert(done.push(cur@).last() == cur@);
    }
    if is_component_exec(&cur) {
        let ghost last = cur@;
        let ghost before = out.deep_view();
        out.push(cur);
        proof {
            assert(out@[before.len() as int].deep_view() =~= last);
            assert(out.deep_view() =~= before.push(last));
        }
    }
    out
}

} // verus!
