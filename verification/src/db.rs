//! The migrations of the version log.

use vstd::prelude::*;

use crate::text;

verus! {

/// The migrations in the order in which they are applied.
pub open spec fn migration_names() -> Seq<Seq<char>> {
    seq![
        "0001_init"@,
        "0002_allow_repeat_manifests"@,
        "0003_archive"@,
        "0004_folder_pending_push"@,
        "0005_folder_sort_index"@,
        "0006_folder_local_deletion"@,
        "0007_folder_revert_state"@,
        "0008_device_deletion_queue"@,
    ]
}

/// Those of the first `n` migrations that have not been applied.
pub open spec fn pending(names: Seq<Seq<char>>, applied: Seq<Seq<char>>, n: int) -> Seq<Seq<char>>
    decreases n,
{
    if n <= 0 {
        seq![]
    } else {
        let rest = pending(names, applied, n - 1);
        if applied.contains(names[n - 1]) {
            rest
        } else {
            rest.push(names[n - 1])
        }
    }
}

/// The migrations in the order in which they are applied.
pub fn migrations() -> (names: Vec<String>)
    ensures
        names.deep_view() == migration_names(),
        names.deep_view() == seq![
            "0001_init"@,
            "0002_allow_repeat_manifests"@,
            "0003_archive"@,
            "0004_folder_pending_push"@,
            "0005_folder_sort_index"@,
            "0006_folder_local_deletion"@,
            "0007_folder_revert_state"@,
            "0008_device_deletion_queue"@,
        ],
{
    let mut names: Vec<String> = Vec::new();
    names.push("0001_init".to_owned());
    names.push("0002_allow_repeat_manifests".to_owned());
    names.push("0003_archive".to_owned());
    names.push("0004_folder_pending_push".to_owned());
    names.push("0005_folder_sort_index".to_owned());
    names.push("0006_folder_local_deletion".to_owned());
    names.push("0007_folder_revert_state".to_owned());
    names.push("0008_device_deletion_queue".to_owned());
    assert(names.deep_view() =~= migration_names());
    names
}

/// Whether `list` holds `name`.
fn holds(list: &Vec<String>, name: &str) -> (r: bool)
    ensures
        r == list.deep_view().contains(name@),
{
    let mut i: usize = 0;
    while i < list.len()
        invariant
            i <= list.len(),
            forall|k: int| 0 <= k < i ==> (#[trigger] list.deep_view()[k]) != name@,
        decreases list.len() - i,
    {
        assert(list.deep_view()[i as int] == list[i as int]@);
        if text::str_eq(list[i].as_str(), name) {
            return true;
        }
        i = i + 1;
    }
    false
}

/// The migrations that have yet to be applied, in order.
pub fn pending_migrations(applied: &Vec<String>) -> (out: Vec<String>)
    ensures
        out.deep_view() == pending(
            migration_names(),
            applied.deep_view(),
            migration_names().len() as int,
        ),
{
    let names = migrations();
    let ghost all = migration_names();
    let mut out: Vec<String> = Vec::new();
    let mut i: usize = 0;
    assert(out.deep_view() =~= seq![]);
    while i < names.len()
        invariant
            all == names.deep_view(),
            i <= names.len(),
            out.deep_view() == pending(all, applied.deep_view(), i as int),
        decreases names.len() - i,
    {
        assert(all[i as int] == names[i as int]@);
        if !holds(applied, names[i].as_str()) {
            let ghost before = out.deep_view();
            let name = names[i].clone();
            out.push(name);
            assert(out.deep_view() =~= before.push(name@));
        }
        i = i + 1;
    }
    out
}

/// Once every migration has been applied, none is left: opening a library again changes
/// nothing.
pub proof fn applied_migrations_are_not_repeated(applied: Seq<Seq<char>>, n: int)
    requires
        forall|i: int| 0 <= i < n ==> applied.contains(#[trigger] migration_names()[i]),
    ensures
        pending(migration_names(), applied, n) == Seq::<Seq<char>>::empty(),
    decreases n,
{
    if n > 0 {
        applied_migrations_are_not_repeated(applied, n - 1);
        assert(applied.contains(migration_names()[n - 1]));
    }
}

/// A migration is still to be applied exactly if it has not been applied; those that are come in
/// the order of the list.
pub proof fn unapplied_migrations_are_pending(
    names: Seq<Seq<char>>,
    applied: Seq<Seq<char>>,
    n: int,
)
    requires
        0 <= n <= names.len(),
    ensures
        pending(names, applied, n) == names.take(n).filter(
            |name: Seq<char>| !applied.contains(name),
        ),
    decreases n,
{
    reveal(Seq::filter);
    let missing = |name: Seq<char>| !applied.contains(name);
    if n > 0 {
        unapplied_migrations_are_pending(names, applied, n - 1);
        assert(names.take(n).drop_last() =~= names.take(n - 1));
        assert(names.take(n).last() == names[n - 1]);
    } else {
        assert(names.take(0).filter(missing) =~= seq![]);
    }
}

} // verus!
