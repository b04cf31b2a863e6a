//! Reconciling the persisted catalog with what a reload discovered.
//!
//! Ids do not survive a reload, so a dictionary is known by the name of its
//! package: entries whose package is gone are dropped, entries whose package
//! was found again take the fresh id and keep the user's `available` flag,
//! and packages seen for the first time are appended as available.

use crate::settings::{catalog_view, DictEntry, DictItem};
use vstd::prelude::*;

verus! {

/// What a reload found of one package, with the name as a sequence of
/// characters.
pub struct Found {
    pub id: u32,
    pub name: Seq<char>,
}

/// A package that a reload opened: the name of its directory and the id the
/// registry gave it.
#[derive(Debug, PartialEq, Eq)]
pub struct Discovered {
    pub id: u32,
    pub name: String,
}

impl View for Discovered {
    type V = Found;

    open spec fn view(&self) -> Found {
        Found { id: self.id, name: self.name@ }
    }
}

/// The packages of a discovery, each by its view.
pub open spec fn discovered_view(list: Seq<Discovered>) -> Seq<Found> {
    list.map_values(|d: Discovered| d@)
}

/// Some package of the discovery has this name.
pub open spec fn was_found(found: Seq<Found>, name: Seq<char>) -> bool {
    exists|j: int| 0 <= j < found.len() && (#[trigger] found[j]).name == name
}

/// Some entry of the catalog has this name.
pub open spec fn names_entry(catalog: Seq<DictEntry>, name: Seq<char>) -> bool {
    exists|i: int| 0 <= i < catalog.len() && (#[trigger] catalog[i]).name == name
}

/// `i` is the first entry of the catalog with this name.
pub open spec fn is_first_named(catalog: Seq<DictEntry>, name: Seq<char>, i: int) -> bool {
    &&& 0 <= i < catalog.len()
    &&& catalog[i].name == name
    &&& forall|k: int| 0 <= k < i ==> (#[trigger] catalog[k]).name != name
}

/// Index of the first entry with this name, where there is one.
pub open spec fn first_named(catalog: Seq<DictEntry>, name: Seq<char>) -> int {
    choose|i: int| is_first_named(catalog, name, i)
}

/// Some entry of the catalog has this id.
pub open spec fn lists_id(catalog: Seq<DictEntry>, id: u32) -> bool {
    exists|i: int| 0 <= i < catalog.len() && (#[trigger] catalog[i]).id == id
}

/// `i` is the first entry of the catalog with this id.
pub open spec fn is_first_with_id(catalog: Seq<DictEntry>, id: u32, i: int) -> bool {
    &&& 0 <= i < catalog.len()
    &&& catalog[i].id == id
    &&& forall|k: int| 0 <= k < i ==> (#[trigger] catalog[k]).id != id
}

/// Index of the first entry with this id, where there is one.
pub open spec fn first_with_id(catalog: Seq<DictEntry>, id: u32) -> int {
    choose|i: int| is_first_with_id(catalog, id, i)
}

/// The test an entry passes when its package was found again.
pub open spec fn still_present(found: Seq<Found>) -> spec_fn(DictEntry) -> bool {
    |entry: DictEntry| was_found(found, entry.name)
}

/// The catalog after one found package is recorded in it: the first entry of
/// that name takes the fresh id; without such an entry a new one is appended,
/// available.
pub open spec fn recorded(catalog: Seq<DictEntry>, package: Found) -> Seq<DictEntry> {
    if names_entry(catalog, package.name) {
        let i = first_named(catalog, package.name);
        catalog.update(
            i,
            DictEntry { id: package.id, name: catalog[i].name, available: catalog[i].available },
        )
    } else {
        catalog.push(DictEntry { id: package.id, name: package.name, available: true })
    }
}

/// The catalog after every found package is recorded in it, in discovery
/// order.
pub open spec fn merged(catalog: Seq<DictEntry>, found: Seq<Found>) -> Seq<DictEntry>
    decreases found.len(),
{
    if found.len() == 0 {
        catalog
    } else {
        recorded(merged(catalog, found.drop_last()), found.last())
    }
}

/// The catalog that a discovery leaves: the entries whose package is gone are
/// dropped, then every found package is recorded.
pub open spec fn reconciled(catalog: Seq<DictEntry>, found: Seq<Found>) -> Seq<DictEntry> {
    merged(catalog.filter(still_present(found)), found)
}

/// The id that the discovery gave last to a package of this name.
pub open spec fn latest_id(found: Seq<Found>, name: Seq<char>) -> u32
    decreases found.len(),
{
    if found.len() == 0 {
        0
    } else if found.last().name == name {
        found.last().id
    } else {
        latest_id(found.drop_last(), name)
    }
}

/// Says whether a package of this name was found.
fn found_by_name(discovered: &Vec<Discovered>, name: &String) -> (present: bool)
    ensures
        present == was_found(discovered_view(discovered@), name@),
{
    let ghost found = discovered_view(discovered@);
    let mut j: usize = 0;
    while j < discovered.len()
        invariant
            j <= discovered.len(),
            found == discovered_view(discovered@),
            forall|k: int| 0 <= k < j ==> (#[trigger] found[k]).name != name@,
        decreases discovered.len() - j,
    {
        if discovered[j].name == *name {
            assert(found[j as int].name == name@);
            return true;
        }
        j += 1;
    }
    false
}

/// The first entry of the catalog with this name, if there is one.
fn position(catalog: &Vec<DictItem>, name: &String) -> (at: Option<usize>)
    ensures
        match at {
            Some(i) => is_first_named(catalog_view(catalog@), name@, i as int),
            None => !names_entry(catalog_view(catalog@), name@),
        },
{
    let ghost entries = catalog_view(catalog@);
    let mut i: usize = 0;
    while i < catalog.len()
        invariant
            i <= catalog.len(),
            entries == catalog_view(catalog@),
            forall|k: int| 0 <= k < i ==> (#[trigger] entries[k]).name != name@,
        decreases catalog.len() - i,
    {
        if catalog[i].name == *name {
            return Some(i);
        }
        i += 1;
    }
    None
}

/// The first entry of the catalog with this id, if there is one.
pub fn find_by_id(catalog: &Vec<DictItem>, id: u32) -> (at: Option<usize>)
    ensures
        match at {
            Some(i) => lists_id(catalog_view(catalog@), id) && first_with_id(
                catalog_view(catalog@),
                id,
            ) == i && i < catalog.len(),
            None => !lists_id(catalog_view(catalog@), id),
        },
{
    let ghost entries = catalog_view(catalog@);
    let mut i: usize = 0;
    while i < catalog.len()
        invariant
            i <= catalog.len(),
            entries == catalog_view(catalog@),
            forall|k: int| 0 <= k < i ==> (#[trigger] entries[k]).id != id,
        decreases catalog.len() - i,
    {
        if catalog[i].id == id {
            proof {
                assert(is_first_with_id(entries, id, i as int));
                let other = first_with_id(entries, id);
                assert(is_first_with_id(entries, id, other));
                if other < i {
                    assert(entries[other].id != id);
                }
                if i < other {
                    assert(entries[i as int].id != id);
                }
            }
            return Some(i);
        }
        i += 1;
    }
    None
}

/// Of two first entries of one name, there is only one.
proof fn lemma_first_named_unique(catalog: Seq<DictEntry>, name: Seq<char>, i: int)
    requires
        is_first_named(catalog, name, i),
    ensures
        names_entry(catalog, name),
        first_named(catalog, name) == i,
{
    let j = first_named(catalog, name);
    assert(is_first_named(catalog, name, j));
    if j < i {
        assert(catalog[j].name != name);
    }
    if i < j {
        assert(catalog[i].name != name);
    }
}

/// Brings the persisted catalog in line with a discovery: entries whose
/// package was not found are dropped; for each found package, in discovery
/// order, the first entry of its name takes the fresh id, or a new available
/// entry is appended.
pub fn reconcile(catalog: &mut Vec<DictItem>, discovered: &Vec<Discovered>)
    ensures
        catalog_view(final(catalog)@) == reconciled(
            catalog_view(old(catalog)@),
            discovered_view(discovered@),
        ),
{
    let ghost before = catalog_view(catalog@);
    let ghost found = discovered_view(discovered@);
    let mut kept: Vec<DictItem> = Vec::new();
    let mut i: usize = 0;
    while i < catalog.len()
        invariant
            i <= catalog.len(),
            before == catalog_view(catalog@),
            found == discovered_view(discovered@),
            catalog_view(kept@) == before.take(i as int).filter(still_present(found)),
        decreases catalog.len() - i,
    {
        let present = found_by_name(discovered, &catalog[i].name);
        proof {
            let head = before.take(i as int);
            let entry = before[i as int];
            assert(before.take(i + 1) == head.push(entry));
            head.lemma_filter_push(entry, still_present(found));
            assert(still_present(found)(entry) == present);
        }
        if present {
            let ghost kept_before = catalog_view(kept@);
            kept.push(catalog[i].clone());
            assert(catalog_view(kept@) == kept_before.push(before[i as int]));
        }
        i += 1;
    }
    assert(before.take(i as int) == before);
    *catalog = kept;
    let mut j: usize = 0;
    while j < discovered.len()
        invariant
            j <= discovered.len(),
            found == discovered_view(discovered@),
            catalog_view(catalog@) == merged(
                before.filter(still_present(found)),
                found.take(j as int),
            ),
        decreases discovered.len() - j,
    {
        let ghost so_far = catalog_view(catalog@);
        proof {
            assert(found.take(j + 1).drop_last() == found.take(j as int));
            assert(found.take(j + 1).last() == found[j as int]);
        }
        match position(catalog, &discovered[j].name) {
            Some(at) => {
                proof {
                    lemma_first_named_unique(so_far, found[j as int].name, at as int);
                }
                let entry = DictItem {
                    id: discovered[j].id,
                    name: catalog[at].name.clone(),
                    available: catalog[at].available,
                };
                catalog.set(at, entry);
                assert(catalog_view(catalog@) == recorded(so_far, found[j as int]));
            },
            None => {
                let entry = DictItem {
                    id: discovered[j].id,
                    name: discovered[j].name.clone(),
                    available: true,
                };
                catalog.push(entry);
                assert(catalog_view(catalog@) == recorded(so_far, found[j as int]));
            },
        }
        j += 1;
    }
    assert(found.take(j as int) == found);
}

/// A name that some entry has is the name of a first entry.
proof fn lemma_least_named(catalog: Seq<DictEntry>, name: Seq<char>, at: int)
    requires
        0 <= at < catalog.len(),
        catalog[at].name == name,
    ensures
        exists|i: int| is_first_named(catalog, name, i),
    decreases at,
{
    if forall|k: int| 0 <= k < at ==> (#[trigger] catalog[k]).name != name {
        assert(is_first_named(catalog, name, at));
    } else {
        let k = choose|k: int| 0 <= k < at && (#[trigger] catalog[k]).name == name;
        lemma_least_named(catalog, name, k);
    }
}

/// Where a catalog names an entry, `first_named` is the first such entry.
pub proof fn lemma_first_named(catalog: Seq<DictEntry>, name: Seq<char>)
    requires
        names_entry(catalog, name),
    ensures
        is_first_named(catalog, name, first_named(catalog, name)),
{
    let at = choose|i: int| 0 <= i < catalog.len() && (#[trigger] catalog[i]).name == name;
    lemma_least_named(catalog, name, at);
}

/// The id that entry `k` of a merged catalog carries: the latest id of the
/// discovery where the entry is the first of a name that was found, else the
/// id it had before.
pub open spec fn carried_id(
    before: Seq<DictEntry>,
    found: Seq<Found>,
    after: Seq<DictEntry>,
    k: int,
) -> u32 {
    if is_first_named(after, after[k].name, k) && was_found(found, after[k].name) {
        latest_id(found, after[k].name)
    } else {
        before[k].id
    }
}

/// `after` is what merging the discovery `found` into `before` must give:
/// the old entries stay in place with their names and flags, the entries
/// behind them are new, available and the first of their name, every found
/// package has an entry, and the ids are those of `carried_id`.
pub open spec fn merge_of(before: Seq<DictEntry>, found: Seq<Found>, after: Seq<DictEntry>) -> bool {
    &&& before.len() <= after.len()
    &&& forall|k: int|
        0 <= k < before.len() ==> (#[trigger] after[k]).name == before[k].name && after[k].available
            == before[k].available
    &&& forall|k: int|
        before.len() <= k < after.len() ==> (#[trigger] after[k]).available && was_found(
            found,
            after[k].name,
        ) && is_first_named(after, after[k].name, k)
    &&& forall|k: int| 0 <= k < after.len() ==> (#[trigger] after[k]).id == carried_id(before, found, after, k)
    &&& forall|j: int| 0 <= j < found.len() ==> names_entry(after, (#[trigger] found[j]).name)
}

/// A name was found in a discovery exactly when it is the name of the last
/// package or was found among the others.
proof fn lemma_was_found_last(found: Seq<Found>, name: Seq<char>)
    requires
        found.len() > 0,
    ensures
        was_found(found, name) <==> (found.last().name == name || was_found(
            found.drop_last(),
            name,
        )),
{
    let rest = found.drop_last();
    if was_found(found, name) {
        let j = choose|j: int| 0 <= j < found.len() && (#[trigger] found[j]).name == name;
        if j < found.len() - 1 {
            assert(rest[j].name == name);
        }
    }
    if was_found(rest, name) {
        let j = choose|j: int| 0 <= j < rest.len() && (#[trigger] rest[j]).name == name;
        assert(found[j].name == name);
    }
    if found.last().name == name {
        assert(found[found.len() - 1].name == name);
    }
}

/// Being the first entry of a name depends only on the names up to there.
proof fn lemma_first_named_same_names(
    one: Seq<DictEntry>,
    other: Seq<DictEntry>,
    name: Seq<char>,
    k: int,
)
    requires
        0 <= k < one.len(),
        k < other.len(),
        forall|i: int| 0 <= i <= k ==> (#[trigger] one[i]).name == other[i].name,
    ensures
        is_first_named(one, name, k) == is_first_named(other, name, k),
{
    if is_first_named(one, name, k) {
        assert forall|i: int| 0 <= i < k implies (#[trigger] other[i]).name != name by {
            assert(one[i].name != name);
        }
    }
    if is_first_named(other, name, k) {
        assert forall|i: int| 0 <= i < k implies (#[trigger] one[i]).name != name by {
            assert(other[i].name != name);
        }
    }
}

/// Recording one more package keeps a merged catalog a merged catalog.
proof fn lemma_merge_step(
    before: Seq<DictEntry>,
    found: Seq<Found>,
    so_far: Seq<DictEntry>,
)
    requires
        found.len() > 0,
        merge_of(before, found.drop_last(), so_far),
    ensures
        merge_of(before, found, recorded(so_far, found.last())),
{
    let rest = found.drop_last();
    let package = found.last();
    let after = recorded(so_far, package);
    assert forall|name: Seq<char>|
        was_found(found, name) == (package.name == name || was_found(rest, name)) by {
        lemma_was_found_last(found, name);
    }
    if names_entry(so_far, package.name) {
        lemma_first_named(so_far, package.name);
        let at = first_named(so_far, package.name);
        assert(after.len() == so_far.len());
        assert forall|k: int| 0 <= k < after.len() implies (#[trigger] after[k]).name
            == so_far[k].name by {}
        assert forall|k: int, name: Seq<char>| 0 <= k < after.len() implies is_first_named(
            after,
            name,
            k,
        ) == is_first_named(so_far, name, k) by {
            lemma_first_named_same_names(after, so_far, name, k);
        }
        assert forall|k: int| 0 <= k < after.len() implies (#[trigger] after[k]).id == carried_id(
            before,
            found,
            after,
            k,
        ) by {
            let name = after[k].name;
            assert(so_far[k].id == carried_id(before, rest, so_far, k));
            if k == at {
                assert(is_first_named(after, name, k));
            } else if name == package.name {
                if is_first_named(so_far, name, k) {
                    lemma_first_named_unique(so_far, name, k);
                }
                assert(!is_first_named(after, name, k));
            } else {
                assert(latest_id(found, name) == latest_id(rest, name));
            }
        }
        assert forall|k: int| before.len() <= k < after.len() implies (#[trigger] after[k]).available
            && was_found(found, after[k].name) && is_first_named(after, after[k].name, k) by {
            assert(so_far[k].available && was_found(rest, so_far[k].name));
            assert(is_first_named(so_far, so_far[k].name, k));
        }
        assert forall|j: int| 0 <= j < found.len() implies names_entry(
            after,
            (#[trigger] found[j]).name,
        ) by {
            let name = found[j].name;
            if j < rest.len() {
                assert(rest[j].name == name);
                assert(names_entry(so_far, name));
            }
            let i = choose|i: int| 0 <= i < so_far.len() && (#[trigger] so_far[i]).name == name;
            assert(after[i].name == name);
        }
    } else {
        let last = so_far.len() as int;
        assert(after.len() == last + 1);
        assert forall|k: int| 0 <= k < last implies (#[trigger] after[k]) == so_far[k] by {}
        assert forall|k: int| 0 <= k < last implies (#[trigger] so_far[k]).name
            != package.name by {}
        assert(is_first_named(after, package.name, last)) by {
            assert forall|k: int| 0 <= k < last implies (#[trigger] after[k]).name
                != package.name by {
                assert(so_far[k].name != package.name);
            }
        }
        assert forall|k: int, name: Seq<char>| 0 <= k < last implies is_first_named(
            after,
            name,
            k,
        ) == is_first_named(so_far, name, k) by {
            assert forall|i: int| 0 <= i <= k implies (#[trigger] after[i]).name
                == so_far[i].name by {}
            lemma_first_named_same_names(after, so_far, name, k);
        }
        assert forall|k: int| 0 <= k < after.len() implies (#[trigger] after[k]).id == carried_id(
            before,
            found,
            after,
            k,
        ) by {
            let name = after[k].name;
            if k < last {
                assert(so_far[k].id == carried_id(before, rest, so_far, k));
                assert(so_far[k].name != package.name);
                assert(latest_id(found, name) == latest_id(rest, name));
            }
        }
        assert forall|k: int| before.len() <= k < after.len() implies (#[trigger] after[k]).available
            && was_found(found, after[k].name) && is_first_named(after, after[k].name, k) by {
            if k < last {
                assert(so_far[k].available && was_found(rest, so_far[k].name));
                assert(is_first_named(so_far, so_far[k].name, k));
            }
        }
        assert forall|j: int| 0 <= j < found.len() implies names_entry(
            after,
            (#[trigger] found[j]).name,
        ) by {
            let name = found[j].name;
            if j < rest.len() {
                assert(rest[j].name == name);
                assert(names_entry(so_far, name));
                let i = choose|i: int| 0 <= i < so_far.len() && (#[trigger] so_far[i]).name == name;
                assert(after[i].name == name);
            } else {
                assert(after[last].name == name);
            }
        }
    }
}

/// What merging a discovery into a catalog gives, said without the order in
/// which the packages were recorded.
pub proof fn lemma_merged(before: Seq<DictEntry>, found: Seq<Found>)
    ensures
        merge_of(before, found, merged(before, found)),
    decreases found.len(),
{
    if found.len() == 0 {
        assert forall|k: int| 0 <= k < before.len() implies (#[trigger] before[k]).id == carried_id(
            before,
            found,
            before,
            k,
        ) by {}
    } else {
        lemma_merged(before, found.drop_last());
        lemma_merge_step(before, found, merged(before, found.drop_last()));
    }
}

/// Filtering keeps a sequence whose entries all pass the test.
proof fn lemma_filter_keeps_all(entries: Seq<DictEntry>, test: spec_fn(DictEntry) -> bool)
    requires
        forall|i: int| 0 <= i < entries.len() ==> test(#[trigger] entries[i]),
    ensures
        entries.filter(test) == entries,
    decreases entries.len(),
{
    if entries.len() == 0 {
        reveal(Seq::filter);
    } else {
        let head = entries.drop_last();
        assert forall|i: int| 0 <= i < head.len() implies test(#[trigger] head[i]) by {
            assert(head[i] == entries[i]);
        }
        lemma_filter_keeps_all(head, test);
        head.lemma_filter_push(entries.last(), test);
        assert(head.push(entries.last()) == entries);
    }
}

/// An entry that passes the test keeps its place among those that pass.
proof fn lemma_filter_has(entries: Seq<DictEntry>, test: spec_fn(DictEntry) -> bool, i: int)
    requires
        0 <= i < entries.len(),
        test(entries[i]),
    ensures
        exists|k: int| 0 <= k < entries.filter(test).len() && #[trigger] entries.filter(test)[k]
            == entries[i],
{
    entries.lemma_filter_contains(test, i);
    let kept = entries.filter(test);
    assert(kept.contains(entries[i]));
    let k = choose|k: int| 0 <= k < kept.len() && kept[k] == entries[i];
    assert(kept[k] == entries[i]);
}

/// The reconciled catalog, said without the order of the steps: it is the
/// merge of the discovery into the entries whose package was found again.
pub proof fn lemma_reconciled(catalog: Seq<DictEntry>, found: Seq<Found>)
    ensures
        merge_of(catalog.filter(still_present(found)), found, reconciled(catalog, found)),
{
    lemma_merged(catalog.filter(still_present(found)), found);
}

/// A discovery that found nothing leaves an empty catalog.
pub proof fn lemma_reconciled_with_nothing(catalog: Seq<DictEntry>)
    ensures
        reconciled(catalog, Seq::empty()) == Seq::<DictEntry>::empty(),
{
    let nothing = Seq::<Found>::empty();
    let kept = catalog.filter(still_present(nothing));
    if kept.len() > 0 {
        catalog.lemma_filter_pred(still_present(nothing), 0);
        assert(was_found(nothing, kept[0].name));
    }
    assert(kept =~= Seq::<DictEntry>::empty());
}

/// After a reload the catalog names exactly the packages that were found:
/// every found package has an entry, and no entry is left of a package that
/// was not found.
pub proof fn lemma_reconciled_names(catalog: Seq<DictEntry>, found: Seq<Found>, name: Seq<char>)
    ensures
        names_entry(reconciled(catalog, found), name) <==> was_found(found, name),
{
    let kept = catalog.filter(still_present(found));
    let after = reconciled(catalog, found);
    lemma_reconciled(catalog, found);
    if names_entry(after, name) {
        let i = choose|i: int| 0 <= i < after.len() && (#[trigger] after[i]).name == name;
        if i < kept.len() {
            catalog.lemma_filter_pred(still_present(found), i);
            assert(still_present(found)(kept[i]));
            assert(after[i].name == kept[i].name);
        }
    }
    if was_found(found, name) {
        let j = choose|j: int| 0 <= j < found.len() && (#[trigger] found[j]).name == name;
        assert(names_entry(after, found[j].name));
    }
}

/// The `available` flag survives a reload by name: an entry whose package is
/// found again has, after the reload, an entry of its name with its flag.
pub proof fn lemma_reconciled_keeps_flag(catalog: Seq<DictEntry>, found: Seq<Found>, i: int)
    requires
        0 <= i < catalog.len(),
        was_found(found, catalog[i].name),
    ensures
        exists|k: int|
            0 <= k < reconciled(catalog, found).len() && (#[trigger] reconciled(
                catalog,
                found,
            )[k]).name == catalog[i].name && reconciled(catalog, found)[k].available
                == catalog[i].available,
{
    let kept = catalog.filter(still_present(found));
    let after = reconciled(catalog, found);
    lemma_reconciled(catalog, found);
    lemma_filter_has(catalog, still_present(found), i);
    let k = choose|k: int| 0 <= k < kept.len() && #[trigger] kept[k] == catalog[i];
    assert(after[k].name == kept[k].name && after[k].available == kept[k].available);
}

/// A package that the catalog did not know is entered as available.
pub proof fn lemma_reconciled_new_is_available(
    catalog: Seq<DictEntry>,
    found: Seq<Found>,
    k: int,
)
    requires
        0 <= k < reconciled(catalog, found).len(),
        !names_entry(catalog, reconciled(catalog, found)[k].name),
    ensures
        reconciled(catalog, found)[k].available,
{
    let kept = catalog.filter(still_present(found));
    let after = reconciled(catalog, found);
    lemma_reconciled(catalog, found);
    if k < kept.len() {
        assert(kept.contains(kept[k]));
        catalog.lemma_filter_contains_rev(still_present(found), kept[k]);
        let i = choose|i: int| 0 <= i < catalog.len() && catalog[i] == kept[k];
        assert(catalog[i].name == after[k].name);
    }
}

/// The id of a found package is always overwritten: the first entry of its
/// name carries the id that the discovery gave last to that name.
pub proof fn lemma_reconciled_takes_fresh_id(catalog: Seq<DictEntry>, found: Seq<Found>, j: int)
    requires
        0 <= j < found.len(),
    ensures
        names_entry(reconciled(catalog, found), found[j].name),
        reconciled(catalog, found)[first_named(reconciled(catalog, found), found[j].name)].id
            == latest_id(found, found[j].name),
{
    let after = reconciled(catalog, found);
    let name = found[j].name;
    lemma_reconciled(catalog, found);
    assert(names_entry(after, found[j].name));
    lemma_first_named(after, name);
    let at = first_named(after, name);
    assert(after[at].id == carried_id(catalog.filter(still_present(found)), found, after, at));
}

/// No two entries of the catalog have one name.
pub open spec fn distinct_entries(catalog: Seq<DictEntry>) -> bool {
    forall|i: int, j: int|
        0 <= i < j < catalog.len() ==> (#[trigger] catalog[i]).name != (#[trigger] catalog[j]).name
}

/// Dropping entries leaves no name twice where none was there twice.
proof fn lemma_filter_keeps_distinct(entries: Seq<DictEntry>, test: spec_fn(DictEntry) -> bool)
    requires
        distinct_entries(entries),
    ensures
        distinct_entries(entries.filter(test)),
    decreases entries.len(),
{
    if entries.len() == 0 {
        reveal(Seq::filter);
    } else {
        let head = entries.drop_last();
        let last = entries.last();
        assert forall|i: int, j: int| 0 <= i < j < head.len() implies (#[trigger] head[i]).name != (
        #[trigger] head[j]).name by {
            assert(entries[i].name != entries[j].name);
        }
        lemma_filter_keeps_distinct(head, test);
        head.lemma_filter_push(last, test);
        assert(head.push(last) == entries);
        let kept = head.filter(test);
        if test(last) {
            assert forall|i: int, j: int|
                0 <= i < j < kept.push(last).len() implies (#[trigger] kept.push(last)[i]).name != (
            #[trigger] kept.push(last)[j]).name by {
                if j == kept.len() {
                    assert(kept.contains(kept[i]));
                    head.lemma_filter_contains_rev(test, kept[i]);
                    let at = choose|at: int| 0 <= at < head.len() && head[at] == kept[i];
                    assert(entries[at].name != entries[entries.len() - 1].name);
                } else {
                    assert(kept[i].name != kept[j].name);
                }
            }
        }
    }
}

/// Where no two entries of the catalog have one name, a reload renumbers the
/// whole catalog: every entry that is left carries the id that the discovery
/// gave last to its name. (Where a name stands twice in the catalog, only the
/// first entry of that name takes the id, as `recorded` says.)
pub proof fn lemma_reconciled_renumbers_all(catalog: Seq<DictEntry>, found: Seq<Found>, k: int)
    requires
        distinct_entries(catalog),
        0 <= k < reconciled(catalog, found).len(),
    ensures
        was_found(found, reconciled(catalog, found)[k].name),
        reconciled(catalog, found)[k].id == latest_id(found, reconciled(catalog, found)[k].name),
{
    let kept = catalog.filter(still_present(found));
    let after = reconciled(catalog, found);
    let name = after[k].name;
    lemma_reconciled(catalog, found);
    assert(names_entry(after, name));
    lemma_reconciled_names(catalog, found, name);
    lemma_filter_keeps_distinct(catalog, still_present(found));
    assert(after[k].id == carried_id(kept, found, after, k));
    if k < kept.len() {
        assert forall|i: int| 0 <= i < k implies (#[trigger] after[i]).name != name by {
            assert(after[i].name == kept[i].name);
            assert(after[k].name == kept[k].name);
            assert(kept[i].name != kept[k].name);
        }
        assert(is_first_named(after, name, k));
    }
}

/// Reconciling a catalog with a discovery of the same names changes ids
/// only: the entries, their order, names and flags stay as they are.
pub proof fn lemma_reconcile_same_names(
    catalog: Seq<DictEntry>,
    found: Seq<Found>,
    again: Seq<Found>,
)
    requires
        forall|name: Seq<char>| was_found(again, name) == was_found(found, name),
    ensures
        reconciled(reconciled(catalog, found), again).len() == reconciled(catalog, found).len(),
        forall|k: int|
            0 <= k < reconciled(catalog, found).len() ==> (#[trigger] reconciled(
                reconciled(catalog, found),
                again,
            )[k]).name == reconciled(catalog, found)[k].name && reconciled(
                reconciled(catalog, found),
                again,
            )[k].available == reconciled(catalog, found)[k].available,
{
    lemma_stable_under_same_names(catalog, found, again);
}

/// The second reconciliation of the two laws above, with what both need:
/// nothing is dropped, nothing is appended, names and flags stay, and ids
/// are those of `carried_id`.
proof fn lemma_stable_under_same_names(
    catalog: Seq<DictEntry>,
    found: Seq<Found>,
    again: Seq<Found>,
)
    requires
        forall|name: Seq<char>| was_found(again, name) == was_found(found, name),
    ensures
        reconciled(catalog, found).filter(still_present(again)) == reconciled(catalog, found),
        merge_of(
            reconciled(catalog, found),
            again,
            reconciled(reconciled(catalog, found), again),
        ),
        reconciled(reconciled(catalog, found), again).len() == reconciled(catalog, found).len(),
{
    let once = reconciled(catalog, found);
    assert forall|i: int| 0 <= i < once.len() implies still_present(again)(#[trigger] once[i]) by {
        assert(names_entry(once, once[i].name));
        lemma_reconciled_names(catalog, found, once[i].name);
    }
    lemma_filter_keeps_all(once, still_present(again));
    lemma_merged(once, again);
    let twice = reconciled(once, again);
    assert(twice == merged(once, again));
    if twice.len() > once.len() {
        let k = once.len() as int;
        let name = twice[k].name;
        assert(twice[k].available && was_found(again, name) && is_first_named(twice, name, k));
        lemma_reconciled_names(catalog, found, name);
        let i = choose|i: int| 0 <= i < once.len() && (#[trigger] once[i]).name == name;
        assert(twice[i].name == once[i].name);
    }
}

/// Reconciling is idempotent: a second reconciliation with the same
/// discovery leaves the catalog as the first one made it.
pub proof fn lemma_reconcile_idempotent(catalog: Seq<DictEntry>, found: Seq<Found>)
    ensures
        reconciled(reconciled(catalog, found), found) == reconciled(catalog, found),
{
    let kept = catalog.filter(still_present(found));
    let once = reconciled(catalog, found);
    let twice = reconciled(once, found);
    lemma_reconciled(catalog, found);
    lemma_stable_under_same_names(catalog, found, found);
    assert forall|k: int| 0 <= k < once.len() implies #[trigger] twice[k] == once[k] by {
        let name = once[k].name;
        assert(twice[k].name == name && twice[k].available == once[k].available);
        assert forall|i: int| 0 <= i <= k implies (#[trigger] twice[i]).name == once[i].name by {}
        lemma_first_named_same_names(twice, once, name, k);
        assert(twice[k].id == carried_id(once, found, twice, k));
        assert(once[k].id == carried_id(kept, found, once, k));
    }
    assert(twice =~= once);
}

/// No two packages of the discovery have one name, as in the listing of a
/// directory.
pub open spec fn distinct_names(found: Seq<Found>) -> bool {
    forall|i: int, j: int|
        0 <= i < j < found.len() ==> (#[trigger] found[i]).name != (#[trigger] found[j]).name
}

/// The packages of the discovery carry consecutive ids in discovery order,
/// the first of them `first`.
pub open spec fn numbered_from(found: Seq<Found>, first: u32) -> bool {
    forall|j: int| 0 <= j < found.len() ==> (#[trigger] found[j]).id == first + j
}

/// Where names are distinct, the latest id of a name is the id of its one
/// package.
pub proof fn lemma_latest_id_of_distinct(found: Seq<Found>, j: int)
    requires
        distinct_names(found),
        0 <= j < found.len(),
    ensures
        latest_id(found, found[j].name) == found[j].id,
    decreases found.len(),
{
    if j < found.len() - 1 {
        let rest = found.drop_last();
        assert(found[j].name != found[found.len() - 1].name);
        assert forall|a: int, b: int| 0 <= a < b < rest.len() implies (#[trigger] rest[a]).name != (
        #[trigger] rest[b]).name by {
            assert(found[a].name != found[b].name);
        }
        assert(rest[j] == found[j]);
        lemma_latest_id_of_distinct(rest, j);
    }
}

/// One half of the law below: every package of `found` stands at the same
/// place in `again`.
proof fn lemma_same_catalog_same_places(
    catalog: Seq<DictEntry>,
    found: Seq<Found>,
    again: Seq<Found>,
    first: u32,
    j: int,
)
    requires
        forall|name: Seq<char>| was_found(again, name) == was_found(found, name),
        distinct_names(found),
        distinct_names(again),
        numbered_from(found, first),
        numbered_from(again, first),
        merged(catalog, again) == merged(catalog, found),
        0 <= j < found.len(),
    ensures
        j < again.len(),
        again[j].name == found[j].name,
        again[j].id == found[j].id,
{
    let name = found[j].name;
    let both = merged(catalog, found);
    assert(was_found(found, name));
    assert(was_found(again, name));
    let other = choose|other: int| 0 <= other < again.len() && (#[trigger] again[other]).name == name;
    lemma_merged(catalog, found);
    lemma_merged(catalog, again);
    assert(names_entry(both, found[j].name));
    lemma_first_named(both, name);
    let at = first_named(both, name);
    assert(both[at].id == carried_id(catalog, found, both, at));
    assert(both[at].id == carried_id(catalog, again, both, at));
    lemma_latest_id_of_distinct(found, j);
    lemma_latest_id_of_distinct(again, other);
    assert(found[j].id == first + j);
    assert(again[other].id == first + other);
}

/// Reconciling twice against the same set of packages gives the same ids
/// exactly when the discovery order is the same: where both discoveries
/// number their packages in discovery order from one first id, the second
/// reconciliation leaves the catalog unchanged if and only if the two
/// discoveries are equal.
pub proof fn lemma_reconcile_twice_same_ids(
    catalog: Seq<DictEntry>,
    found: Seq<Found>,
    again: Seq<Found>,
    first: u32,
)
    requires
        forall|name: Seq<char>| was_found(again, name) == was_found(found, name),
        distinct_names(found),
        distinct_names(again),
        numbered_from(found, first),
        numbered_from(again, first),
    ensures
        reconciled(reconciled(catalog, found), again) == reconciled(catalog, found) <==> again
            == found,
{
    let once = reconciled(catalog, found);
    let twice = reconciled(once, again);
    if again == found {
        lemma_reconcile_idempotent(catalog, found);
    }
    if twice == once {
        lemma_stable_under_same_names(catalog, found, again);
        lemma_stable_under_same_names(catalog, found, found);
        lemma_reconcile_idempotent(catalog, found);
        assert(merged(once, again) == merged(once, found));
        assert forall|j: int| 0 <= j < found.len() implies j < again.len() && #[trigger] again[j]
            == found[j] by {
            lemma_same_catalog_same_places(once, found, again, first, j);
        }
        if again.len() > 0 {
            lemma_same_catalog_same_places(once, again, found, first, again.len() - 1);
        }
        assert(again =~= found);
    }
}

} // verus!
