//! Lists of file names that are separated by NUL bytes.
use vstd::prelude::*;

verus! {

/// The names that `s` lists, where a NUL byte separates one from the next.
pub open spec fn split_at_nul(s: Seq<u8>) -> Seq<Seq<u8>>
    decreases s.len(),
{
    if s.len() == 0 {
        seq![Seq::empty()]
    } else {
        let before = split_at_nul(s.drop_last());
        if s.last() == 0 {
            before.push(Seq::empty())
        } else {
            before.drop_last().push(before.last().push(s.last()))
        }
    }
}

/// The names that a list holds. Only an empty list has none; a NUL byte at the
/// end closes the last name and starts no other.
pub open spec fn listed_names(s: Seq<u8>) -> Seq<Seq<u8>> {
    if s.len() == 0 {
        Seq::empty()
    } else if s.last() == 0 {
        split_at_nul(s.drop_last())
    } else {
        split_at_nul(s)
    }
}

/// The names one behind the other, with a NUL byte between them.
pub open spec fn joined(names: Seq<Seq<u8>>) -> Seq<u8>
    decreases names.len(),
{
    if names.len() == 0 {
        Seq::empty()
    } else if names.len() == 1 {
        names[0]
    } else {
        joined(names.drop_last()).push(0) + names.last()
    }
}

/// The names one behind the other, with a NUL byte behind each.
pub open spec fn terminated(names: Seq<Seq<u8>>) -> Seq<u8>
    decreases names.len(),
{
    if names.len() == 0 {
        Seq::empty()
    } else {
        terminated(names.drop_last()) + names.last().push(0)
    }
}

/// No name holds a NUL byte.
pub open spec fn nul_free(names: Seq<Seq<u8>>) -> bool {
    forall|i: int, k: int|
        0 <= i < names.len() && 0 <= k < names[i].len() ==> #[trigger] names[i][k] != 0
}

/// The bytes of each name.
pub open spec fn name_views(names: Seq<Vec<u8>>) -> Seq<Seq<u8>> {
    Seq::new(names.len(), |i: int| names[i]@)
}

/// The names of a NUL-separated list. Names of no length are kept: each of
/// them is diagnosed with its number in the list.
pub fn files0_names(data: &[u8]) -> (r: Vec<Vec<u8>>)
    ensures
        name_views(r@) == listed_names(data@),
{
    let ghost s = data@;
    let mut names: Vec<Vec<u8>> = Vec::new();
    if data.len() == 0 {
        assert(name_views(names@) =~= Seq::<Seq<u8>>::empty());
        return names;
    }
    let end: usize = if data[data.len() - 1] == 0 {
        data.len() - 1
    } else {
        data.len()
    };
    let mut name: Vec<u8> = Vec::new();
    let mut i: usize = 0;
    assert(name_views(names@).push(name@) =~= split_at_nul(s.take(0)));
    while i < end
        invariant
            s == data@,
            i <= end <= s.len(),
            name_views(names@).push(name@) == split_at_nul(s.take(i as int)),
        decreases end - i,
    {
        let b: u8 = data[i];
        let ghost before = split_at_nul(s.take(i as int));
        proof {
            assert(s.take(i + 1).drop_last() =~= s.take(i as int));
            assert(s.take(i + 1).last() == b);
            assert(before.last() == name@);
            assert(before.drop_last() =~= name_views(names@));
        }
        if b == 0 {
            names.push(name);
            name = Vec::new();
            assert(name_views(names@) =~= before);
        } else {
            name.push(b);
        }
        i = i + 1;
        assert(name_views(names@).push(name@) =~= split_at_nul(s.take(i as int)));
    }
    let ghost before = name_views(names@);
    let ghost last = name@;
    names.push(name);
    proof {
        assert(name_views(names@) =~= before.push(last));
        if s.last() == 0 {
            assert(s.take(end as int) =~= s.drop_last());
        } else {
            assert(s.take(end as int) =~= s);
        }
    }
    names
}

/// Splitting a text at its NUL bytes loses nothing, and no name holds a NUL
/// byte.
pub proof fn law_split_joined(s: Seq<u8>)
    ensures
        split_at_nul(s).len() > 0,
        nul_free(split_at_nul(s)),
        joined(split_at_nul(s)) == s,
    decreases s.len(),
{
    reveal_with_fuel(joined, 2);
    let names = split_at_nul(s);
    if s.len() > 0 {
        law_split_joined(s.drop_last());
        let before = split_at_nul(s.drop_last());
        if s.last() == 0 {
            assert(names.drop_last() =~= before);
            assert(joined(names) =~= s);
        } else {
            assert(names.drop_last() =~= before.drop_last());
            if before.len() > 1 {
                assert(joined(before) == joined(before.drop_last()).push(0) + before.last());
                assert(joined(names) == joined(before.drop_last()).push(0) + names.last());
            }
            assert(joined(names) =~= s.drop_last().push(s.last()));
            assert(joined(names) =~= s);
            assert forall|i: int, k: int| 0 <= i < names.len() && 0 <= k < names[i].len() implies
                #[trigger] names[i][k] != 0 by {
                if i < before.len() - 1 {
                    assert(names[i] == before[i]);
                    assert(before[i][k] != 0);
                } else if k < before.last().len() {
                    assert(before[before.len() - 1][k] != 0);
                }
            }
        }
    } else {
        assert(joined(names) =~= s);
    }
}

/// A name behind a NUL byte is split off by itself.
proof fn lemma_split_last(a: Seq<u8>, name: Seq<u8>)
    requires
        forall|k: int| 0 <= k < name.len() ==> #[trigger] name[k] != 0,
    ensures
        split_at_nul(a.push(0) + name) == split_at_nul(a).push(name),
    decreases name.len(),
{
    let s = a.push(0) + name;
    if name.len() == 0 {
        assert(s =~= a.push(0));
        assert(s.drop_last() =~= a);
        assert(name =~= Seq::<u8>::empty());
    } else {
        assert(s.drop_last() =~= a.push(0) + name.drop_last());
        assert(name[name.len() - 1] != 0);
        lemma_split_last(a, name.drop_last());
        let before = split_at_nul(s.drop_last());
        assert(before.drop_last() =~= split_at_nul(a));
        assert(name.drop_last().push(name.last()) =~= name);
    }
}

/// A text without a NUL byte is one name.
proof fn lemma_split_one(name: Seq<u8>)
    requires
        forall|k: int| 0 <= k < name.len() ==> #[trigger] name[k] != 0,
    ensures
        split_at_nul(name) == seq![name],
    decreases name.len(),
{
    if name.len() > 0 {
        assert(name[name.len() - 1] != 0);
        lemma_split_one(name.drop_last());
        assert(name.drop_last().push(name.last()) =~= name);
        assert(split_at_nul(name) =~= seq![name]);
    } else {
        assert(name =~= Seq::<u8>::empty());
    }
}

proof fn lemma_joined_split(names: Seq<Seq<u8>>)
    requires
        names.len() > 0,
        nul_free(names),
    ensures
        split_at_nul(joined(names)) == names,
    decreases names.len(),
{
    let last = names.last();
    assert forall|k: int| 0 <= k < last.len() implies #[trigger] last[k] != 0 by {
        assert(names[names.len() - 1][k] != 0);
    }
    if names.len() == 1 {
        lemma_split_one(last);
        assert(names =~= seq![last]);
    } else {
        let before = names.drop_last();
        assert forall|i: int, k: int| 0 <= i < before.len() && 0 <= k < before[i].len() implies
            #[trigger] before[i][k] != 0 by {
            assert(names[i][k] != 0);
        }
        lemma_joined_split(before);
        lemma_split_last(joined(before), last);
        assert(before.push(last) =~= names);
    }
}

proof fn lemma_terminated(names: Seq<Seq<u8>>)
    requires
        names.len() > 0,
    ensures
        terminated(names) == joined(names).push(0),
    decreases names.len(),
{
    reveal_with_fuel(terminated, 2);
    if names.len() == 1 {
        assert(terminated(names.drop_last()) =~= Seq::<u8>::empty());
        assert(terminated(names) =~= joined(names).push(0));
    } else {
        lemma_terminated(names.drop_last());
        assert(terminated(names) =~= joined(names).push(0));
    }
}

/// Names that are written with a NUL byte behind each come back as they were,
/// those of no length with them.
pub proof fn law_terminated_names(names: Seq<Seq<u8>>)
    requires
        nul_free(names),
    ensures
        listed_names(terminated(names)) == names,
{
    if names.len() == 0 {
        assert(names =~= Seq::<Seq<u8>>::empty());
    } else {
        lemma_terminated(names);
        assert(terminated(names).drop_last() =~= joined(names));
        lemma_joined_split(names);
    }
}

/// The NUL byte behind the last name may be left out, unless that name has no
/// length.
pub proof fn law_unterminated_names(names: Seq<Seq<u8>>)
    requires
        nul_free(names),
        names.len() > 0,
        names.last().len() > 0,
    ensures
        listed_names(joined(names)) == names,
{
    lemma_joined_split(names);
    assert(joined(names).last() == names.last().last());
    assert(names[names.len() - 1][names.last().len() - 1] != 0);
}

} // verus!
