use vstd::prelude::*;

verus! {

/// The segments of a slash-separated path, as `str::split('/')` gives them:
/// there is always at least one, and an empty path has one empty segment.
pub open spec fn split_spec(s: Seq<char>) -> Seq<Seq<char>>
    decreases s.len(),
{
    if s.len() == 0 {
        seq![Seq::empty()]
    } else if s.last() == '/' {
        split_spec(s.drop_last()).push(Seq::empty())
    } else {
        let p = split_spec(s.drop_last());
        p.update(p.len() - 1, p.last().push(s.last()))
    }
}

pub proof fn lemma_split_nonempty(s: Seq<char>)
    ensures
        split_spec(s).len() >= 1,
    decreases s.len(),
{
    if s.len() > 0 {
        lemma_split_nonempty(s.drop_last());
    }
}

/// The views of a vector of strings.
pub open spec fn views(v: Seq<String>) -> Seq<Seq<char>> {
    v.map_values(|x: String| x@)
}

/// Splits a virtual path into its segments.
pub fn split_path(s: &str) -> (r: Vec<String>)
    ensures
        views(r@) == split_spec(s@),
{
    let n = s.unicode_len();
    let mut segs: Vec<String> = Vec::new();
    let mut start: usize = 0;
    let mut i: usize = 0;
    proof {
        assert(s@.subrange(0, 0) =~= Seq::<char>::empty());
    }
    while i < n
        invariant
            n == s@.len(),
            start <= i <= n,
            split_spec(s@.subrange(0, i as int)) == views(segs@).push(
                s@.subrange(start as int, i as int),
            ),
        decreases n - i,
    {
        let c = s.get_char(i);
        let ghost pre = s@.subrange(0, i as int);
        proof {
            assert(s@.subrange(0, i + 1).drop_last() =~= pre);
            assert(s@.subrange(0, i + 1).last() == c);
        }
        if c == '/' {
            let seg = s.substring_char(start, i);
            let seg = String::from_str(seg);
            segs.push(seg);
            i = i + 1;
            start = i;
            proof {
                assert(views(segs@) =~= views(segs@.drop_last()).push(seg@));
                assert(s@.subrange(start as int, i as int) =~= Seq::<char>::empty());
                assert(split_spec(s@.subrange(0, i as int)) =~= views(segs@).push(
                    s@.subrange(start as int, i as int),
                ));
            }
        } else {
            i = i + 1;
            proof {
                assert(s@.subrange(start as int, i as int) =~= s@.subrange(
                    start as int,
                    i - 1,
                ).push(c));
                assert(split_spec(s@.subrange(0, i as int)) =~= views(segs@).push(
                    s@.subrange(start as int, i as int),
                ));
            }
        }
    }
    let last = String::from_str(s.substring_char(start, n));
    segs.push(last);
    proof {
        assert(s@.subrange(0, n as int) =~= s@);
        assert(views(segs@) =~= views(segs@.drop_last()).push(last@));
    }
    segs
}

/// Whether the segments `a` lead the segments `b`.
pub fn segments_prefix(a: &Vec<String>, b: &Vec<String>) -> (r: bool)
    ensures
        r == views(a@).is_prefix_of(views(b@)),
{
    if a.len() > b.len() {
        return false;
    }
    let mut i: usize = 0;
    while i < a.len()
        invariant
            a@.len() <= b@.len(),
            i <= a@.len(),
            forall|j: int| 0 <= j < i ==> a@[j]@ == b@[j]@,
        decreases a@.len() - i,
    {
        let same: bool = a[i] == b[i];
        if !same {
            assert(views(b@).subrange(0, a@.len() as int)[i as int] != views(a@)[i as int]);
            return false;
        }
        i = i + 1;
    }
    assert(views(b@).subrange(0, a@.len() as int) =~= views(a@));
    true
}

} // verus!
