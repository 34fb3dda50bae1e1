//! The human-readable summary of a partition.
use vstd::prelude::*;
use vstd::string::StringExecFns;
use crate::model::{MemberDependency, MemberDependencyView, record_views};
use crate::names::views;

verus! {

/// The names, separated by ", ".
pub open spec fn joined(names: Seq<Seq<char>>) -> Seq<char>
    decreases names.len(),
{
    if names.len() == 0 {
        Seq::empty()
    } else if names.len() == 1 {
        names[0]
    } else {
        joined(names.drop_last()) + ", "@ + names.last()
    }
}

pub open spec fn member_names_of(rs: Seq<MemberDependencyView>) -> Seq<Seq<char>> {
    rs.map_values(|r: MemberDependencyView| r.member)
}

/// `  <name>: <member>, <member>` and a line break.
pub open spec fn addition_line(name: Seq<char>, rs: Seq<MemberDependencyView>) -> Seq<char> {
    "  "@ + name + ": "@ + joined(member_names_of(rs)) + "\n"@
}

pub open spec fn addition_lines(adds: Seq<(String, Vec<MemberDependency>)>) -> Seq<char>
    decreases adds.len(),
{
    if adds.len() == 0 {
        Seq::empty()
    } else {
        addition_lines(adds.drop_last()) + addition_line(
            adds.last().0@,
            record_views(adds.last().1@),
        )
    }
}

pub open spec fn removal_lines(names: Seq<Seq<char>>) -> Seq<char>
    decreases names.len(),
{
    if names.len() == 0 {
        Seq::empty()
    } else {
        removal_lines(names.drop_last()) + "  "@ + names.last() + "\n"@
    }
}

/// Each section with its heading, left out where it has no entry.
pub open spec fn summary(adds: Seq<(String, Vec<MemberDependency>)>, removes: Seq<String>) -> Seq<
    char,
> {
    (if adds.len() > 0 {
        "Move dependencies from individual crates to [workspace.dependencies]:\n"@ + addition_lines(
            adds,
        )
    } else {
        Seq::empty()
    }) + (if removes.len() > 0 {
        "Remove dependencies from [workspace.dependencies]:\n"@ + removal_lines(views(removes))
    } else {
        Seq::empty()
    })
}

fn join_members(rs: &Vec<MemberDependency>) -> (r: String)
    ensures
        r@ == joined(member_names_of(record_views(rs@))),
{
    let mut s = String::new();
    let mut i: usize = 0;
    assert(member_names_of(record_views(rs@)).subrange(0, 0) =~= Seq::<Seq<char>>::empty());
    while i < rs.len()
        invariant
            i <= rs.len(),
            s@ == joined(member_names_of(record_views(rs@)).subrange(0, i as int)),
        decreases rs.len() - i,
    {
        let ghost ns = member_names_of(record_views(rs@));
        assert(ns.subrange(0, i + 1).drop_last() =~= ns.subrange(0, i as int));
        assert(ns[i as int] == rs@[i as int].name@);
        if i > 0 {
            s.append(", ");
        } else {
            assert(ns.subrange(0, 1) =~= seq![ns[0]]);
        }
        s.append(rs[i].name.as_str());
        i = i + 1;
    }
    assert(member_names_of(record_views(rs@)).subrange(0, i as int) =~= member_names_of(
        record_views(rs@),
    ));
    s
}

/// The summary of a partition: the dependencies to move into the shared
/// table, each with the members that declare it, then those to drop from it.
pub fn format_changes(add: &Vec<(String, Vec<MemberDependency>)>, remove: &Vec<String>) -> (r: String)
    ensures
        r@ == summary(add@, remove@),
{
    let mut s = String::new();
    if add.len() > 0 {
        s.append("Move dependencies from individual crates to [workspace.dependencies]:\n");
        let ghost head = s@;
        let mut t: usize = 0;
        assert(add@.subrange(0, 0) =~= Seq::<(String, Vec<MemberDependency>)>::empty());
        while t < add.len()
            invariant
                t <= add.len(),
                s@ == head + addition_lines(add@.subrange(0, t as int)),
            decreases add.len() - t,
        {
            assert(add@.subrange(0, t + 1).drop_last() =~= add@.subrange(0, t as int));
            assert(add@.subrange(0, t + 1).last() == add@[t as int]);
            s.append("  ");
            s.append(add[t].0.as_str());
            s.append(": ");
            let members = join_members(&add[t].1);
            s.append(members.as_str());
            s.append("\n");
            t = t + 1;
            assert(s@ =~= head + addition_lines(add@.subrange(0, t as int)));
        }
        assert(add@.subrange(0, t as int) =~= add@);
    }
    let ghost first = s@;
    if remove.len() > 0 {
        s.append("Remove dependencies from [workspace.dependencies]:\n");
        let ghost head = s@;
        let mut i: usize = 0;
        assert(views(remove@).subrange(0, 0) =~= Seq::<Seq<char>>::empty());
        while i < remove.len()
            invariant
                i <= remove.len(),
                s@ == head + removal_lines(views(remove@).subrange(0, i as int)),
            decreases remove.len() - i,
        {
            assert(views(remove@).subrange(0, i + 1).drop_last() =~= views(remove@).subrange(
                0,
                i as int,
            ));
            s.append("  ");
            s.append(remove[i].as_str());
            s.append("\n");
            i = i + 1;
            assert(s@ =~= head + removal_lines(views(remove@).subrange(0, i as int)));
        }
        assert(views(remove@).subrange(0, i as int) =~= views(remove@));
    }
    assert(s@ =~= summary(add@, remove@));
    s
}

} // verus!
