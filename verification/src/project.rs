use vstd::prelude::*;
use crate::config::{Config, ConfigView, filter_allows};
use crate::dep::{DepKind, RootCrate};
use crate::doc::{DocValue, doc_get, doc_as_str};
use crate::error::{CliError, CliResult};
use crate::graph::{DepGraph, GraphView, kinds_set, lemma_view_find_found, view_add_child, view_find, view_find_or_add};
use crate::util::str_eq;

verus! {

/// Kinds declared for each dependency name, in declaration order.
#[derive(Debug)]
pub struct DepKindsMap {
    pub entries: Vec<(String, Vec<DepKind>)>,
}

/// First kind list stored under `key`.
pub open spec fn dkm_get(entries: Seq<(String, Vec<DepKind>)>, key: Seq<char>) -> Option<Seq<DepKind>>
    decreases entries.len(),
{
    if entries.len() == 0 {
        None
    } else if entries[0].0@ == key {
        Some(entries[0].1@)
    } else {
        dkm_get(entries.drop_first(), key)
    }
}

proof fn lemma_dkm_get_at(entries: Seq<(String, Vec<DepKind>)>, key: Seq<char>, i: int)
    requires
        0 <= i < entries.len(),
        entries[i].0@ == key,
        forall|j: int| 0 <= j < i ==> #[trigger] entries[j].0@ != key,
    ensures
        dkm_get(entries, key) == Some(entries[i].1@),
    decreases entries.len(),
{
    if i > 0 {
        lemma_dkm_get_at(entries.drop_first(), key, i - 1);
    }
}

proof fn lemma_dkm_get_none(entries: Seq<(String, Vec<DepKind>)>, key: Seq<char>)
    requires
        forall|j: int| 0 <= j < entries.len() ==> #[trigger] entries[j].0@ != key,
    ensures
        dkm_get(entries, key) is None,
    decreases entries.len(),
{
    if entries.len() > 0 {
        lemma_dkm_get_none(entries.drop_first(), key);
    }
}

/// Changing one entry's kind list leaves every other key's lookup alone,
/// and a first match keeps its place.
proof fn lemma_dkm_get_update(
    entries: Seq<(String, Vec<DepKind>)>,
    i: int,
    v: Vec<DepKind>,
    key: Seq<char>,
)
    requires
        0 <= i < entries.len(),
        entries[i].0@ == key,
        forall|j: int| 0 <= j < i ==> #[trigger] entries[j].0@ != key,
    ensures
        dkm_get(entries.update(i, (entries[i].0, v)), key) == Some(v@),
        forall|k: Seq<char>|
            k != key ==> #[trigger] dkm_get(entries.update(i, (entries[i].0, v)), k) == dkm_get(
                entries,
                k,
            ),
    decreases entries.len(),
{
    let updated = entries.update(i, (entries[i].0, v));
    assert(updated.len() == entries.len());
    if i == 0 {
        assert(updated[0].0@ == key);
        assert(updated.drop_first() =~= entries.drop_first());
        assert forall|k: Seq<char>|
            k != key implies #[trigger] dkm_get(updated, k) == dkm_get(entries, k) by {
            assert(updated[0].0@ != k);
        }
    } else {
        assert(updated[0] == entries[0]);
        assert(updated.drop_first() =~= entries.drop_first().update(i - 1, (entries[i].0, v)));
        lemma_dkm_get_update(entries.drop_first(), i - 1, v, key);
        assert(dkm_get(updated, key) == dkm_get(updated.drop_first(), key));
        assert forall|k: Seq<char>|
            k != key implies #[trigger] dkm_get(updated, k) == dkm_get(entries, k) by {
            if updated[0].0@ != k {
                assert(dkm_get(updated.drop_first(), k) == dkm_get(entries.drop_first(), k));
            }
        }
    }
}

/// A pushed fresh key is found, and no other lookup changes.
proof fn lemma_dkm_get_push(entries: Seq<(String, Vec<DepKind>)>, e: (String, Vec<DepKind>))
    ensures
        dkm_get(entries, e.0@) is None ==> dkm_get(entries.push(e), e.0@) == Some(e.1@),
        forall|k: Seq<char>|
            k != e.0@ ==> #[trigger] dkm_get(entries.push(e), k) == dkm_get(entries, k),
    decreases entries.len(),
{
    let pushed = entries.push(e);
    if entries.len() > 0 {
        assert(pushed[0] == entries[0]);
        assert(pushed.drop_first() =~= entries.drop_first().push(e));
        lemma_dkm_get_push(entries.drop_first(), e);
        assert forall|k: Seq<char>|
            k != e.0@ implies #[trigger] dkm_get(pushed, k) == dkm_get(entries, k) by {
            if entries[0].0@ != k {
                assert(dkm_get(pushed.drop_first(), k) == dkm_get(entries.drop_first(), k));
            }
        }
    } else {
        assert(pushed.drop_first() =~= Seq::<(String, Vec<DepKind>)>::empty());
        assert(pushed[0] == e);
        assert forall|k: Seq<char>|
            k != e.0@ implies #[trigger] dkm_get(pushed, k) == dkm_get(entries, k) by {
            assert(dkm_get(pushed, k) == dkm_get(pushed.drop_first(), k));
        }
    }
}

impl DepKindsMap {
    /// An empty kind map.
    pub fn new() -> (m: DepKindsMap)
        ensures
            m.entries@.len() == 0,
    {
        DepKindsMap { entries: Vec::new() }
    }

    /// The kind list declared for `name`, if any.
    pub fn get<'a>(&'a self, name: &str) -> (r: Option<&'a Vec<DepKind>>)
        ensures
            match r {
                Some(v) => dkm_get(self.entries@, name@) == Some(v@),
                None => dkm_get(self.entries@, name@) is None,
            },
    {
        let ghost all = self.entries@;
        let mut i: usize = 0;
        while i < self.entries.len()
            invariant
                all == self.entries@,
                0 <= i <= self.entries.len(),
                forall|j: int| 0 <= j < i ==> #[trigger] all[j].0@ != name@,
            decreases self.entries.len() - i,
        {
            if str_eq(self.entries[i].0.as_str(), name) {
                proof {
                    lemma_dkm_get_at(all, name@, i as int);
                }
                return Some(&self.entries[i].1);
            }
            i += 1;
        }
        proof {
            lemma_dkm_get_none(all, name@);
        }
        None
    }
}

/// Records one more kind for a dependency name: the kind joins the name's
/// list, which is created on first sight.
#[verifier::loop_isolation(false)]
pub fn add_kind(dep_kinds_map: &mut DepKindsMap, key: String, kind: DepKind)
    ensures
        dkm_get(final(dep_kinds_map).entries@, key@) == match dkm_get(
            old(dep_kinds_map).entries@,
            key@,
        ) {
            Some(s) => Some(s.push(kind)),
            None => Some(seq![kind]),
        },
        forall|k: Seq<char>|
            k != key@ ==> #[trigger] dkm_get(final(dep_kinds_map).entries@, k) == dkm_get(
                old(dep_kinds_map).entries@,
                k,
            ),
{
    let ghost all = dep_kinds_map.entries@;
    let mut i: usize = 0;
    while i < dep_kinds_map.entries.len()
        invariant
            all == dep_kinds_map.entries@,
            0 <= i <= dep_kinds_map.entries.len(),
            forall|j: int| 0 <= j < i ==> #[trigger] all[j].0@ != key@,
        decreases dep_kinds_map.entries.len() - i,
    {
        if str_eq(dep_kinds_map.entries[i].0.as_str(), key.as_str()) {
            proof {
                lemma_dkm_get_at(all, key@, i as int);
            }
            let mut kinds: Vec<DepKind> = Vec::new();
            let mut t: usize = 0;
            while t < dep_kinds_map.entries[i].1.len()
                invariant
                    all == dep_kinds_map.entries@,
                    0 <= i < dep_kinds_map.entries.len(),
                    0 <= t <= dep_kinds_map.entries[i as int].1.len(),
                    kinds@ == all[i as int].1@.take(t as int),
                decreases dep_kinds_map.entries[i as int].1.len() - t,
            {
                kinds.push(dep_kinds_map.entries[i].1[t]);
                proof {
                    assert(kinds@ =~= all[i as int].1@.take(t as int + 1));
                }
                t += 1;
            }
            kinds.push(kind);
            proof {
                assert(kinds@ =~= all[i as int].1@.push(kind));
            }
            let name = dep_kinds_map.entries[i].0.clone();
            dep_kinds_map.entries[i] = (name, kinds);
            proof {
                assert(dep_kinds_map.entries@[i as int].0@ == all[i as int].0@);
                assert(dep_kinds_map.entries@ =~= all.update(
                    i as int,
                    (dep_kinds_map.entries@[i as int].0, dep_kinds_map.entries@[i as int].1),
                ));
                lemma_dkm_get_update(
                    all,
                    i as int,
                    dep_kinds_map.entries@[i as int].1,
                    all[i as int].0@,
                );
            }
            return ;
        }
        i += 1;
    }
    proof {
        lemma_dkm_get_none(all, key@);
    }
    let mut kinds: Vec<DepKind> = Vec::new();
    kinds.push(kind);
    let ghost entry_key = key@;
    dep_kinds_map.entries.push((key, kinds));
    proof {
        let e = dep_kinds_map.entries@.last();
        assert(dep_kinds_map.entries@ =~= all.push(e));
        lemma_dkm_get_push(all, e);
        assert(e.1@ =~= seq![kind]);
    }
}

/// The root package a manifest names: its name and version strings.
pub open spec fn manifest_package(m: DocValue) -> Option<(Seq<char>, Seq<char>)> {
    match doc_get(m, ("package")@) {
        Some(pkg) => match (
            doc_as_str(doc_get(pkg, ("name")@)),
            doc_as_str(doc_get(pkg, ("version")@)),
        ) {
            (Some(n), Some(v)) => Some((n, v)),
            _ => None,
        },
        None => None,
    }
}

/// Whether a declared dependency carries `optional = true`.
pub open spec fn optional_flag(v: DocValue) -> bool {
    doc_get(v, ("optional")@) matches Some(DocValue::Bool(b)) && b == true
}

/// What one entry of the dependencies table contributes for its name:
/// an optional dependency only when optional walking is on, every other
/// entry only when regular walking is on.
pub open spec fn dep_contribution(v: DocValue, cfg: ConfigView) -> Set<DepKind> {
    if optional_flag(v) {
        if cfg.optional_deps {
            Set::empty().insert(DepKind::Optional)
        } else {
            Set::empty()
        }
    } else if cfg.regular_deps {
        Set::empty().insert(DepKind::Regular)
    } else {
        Set::empty()
    }
}

/// The kinds the dependencies table gives `dep`, over all its entries.
pub open spec fn deps_table_kinds(
    entries: Seq<(String, DocValue)>,
    cfg: ConfigView,
    dep: Seq<char>,
) -> Set<DepKind>
    decreases entries.len(),
{
    if entries.len() == 0 {
        Set::empty()
    } else {
        deps_table_kinds(entries.drop_last(), cfg, dep).union(
            if entries.last().0@ == dep {
                dep_contribution(entries.last().1, cfg)
            } else {
                Set::empty()
            },
        )
    }
}

/// Whether a table holds an entry under this name.
pub open spec fn table_has_key(entries: Seq<(String, DocValue)>, dep: Seq<char>) -> bool {
    exists|i: int| 0 <= i < entries.len() && #[trigger] entries[i].0@ == dep
}

/// The kinds one flat table (build or dev dependencies) gives `dep`.
pub open spec fn flat_table_kinds(
    m: DocValue,
    key: Seq<char>,
    enabled: bool,
    kind: DepKind,
    dep: Seq<char>,
) -> Set<DepKind> {
    if enabled {
        match doc_get(m, key) {
            Some(DocValue::Table(es)) => if table_has_key(es@, dep) {
                Set::empty().insert(kind)
            } else {
                Set::empty()
            },
            _ => Set::empty(),
        }
    } else {
        Set::empty()
    }
}

/// Every kind the manifest declares for `dep`, under this configuration.
pub open spec fn declared_kinds(m: DocValue, cfg: ConfigView, dep: Seq<char>) -> Set<DepKind> {
    (match doc_get(m, ("dependencies")@) {
        Some(DocValue::Table(es)) => deps_table_kinds(es@, cfg, dep),
        _ => Set::empty(),
    }).union(flat_table_kinds(m, ("build-dependencies")@, cfg.build_deps, DepKind::Build, dep)).union(
        flat_table_kinds(m, ("dev-dependencies")@, cfg.dev_deps, DepKind::Dev, dep),
    )
}

/// The table stored in the manifest under `key`; an absent or non-table
/// value reads as an empty one.
pub open spec fn table_of(m: DocValue, key: Seq<char>) -> Seq<(String, DocValue)> {
    match doc_get(m, key) {
        Some(DocValue::Table(es)) => es@,
        _ => Seq::empty(),
    }
}

proof fn lemma_deps_table_empty(entries: Seq<(String, DocValue)>, cfg: ConfigView, dep: Seq<char>)
    requires
        forall|i: int|
            0 <= i < entries.len() && #[trigger] entries[i].0@ == dep ==> dep_contribution(
                entries[i].1,
                cfg,
            ).is_empty(),
    ensures
        deps_table_kinds(entries, cfg, dep).is_empty(),
    decreases entries.len(),
{
    if entries.len() > 0 {
        lemma_deps_table_empty(entries.drop_last(), cfg, dep);
        assert(deps_table_kinds(entries, cfg, dep) =~= Set::<DepKind>::empty());
    }
}

/// A dependency declared optional is excluded from the kind map entirely
/// when optional walking is off: unless the build or dev tables also name
/// it, the manifest declares no kind at all for it.
pub proof fn lemma_optional_excluded(m: DocValue, cfg: ConfigView, dep: Seq<char>)
    requires
        !cfg.optional_deps,
        forall|i: int|
            0 <= i < table_of(m, ("dependencies")@).len() && #[trigger] table_of(
                m,
                ("dependencies")@,
            )[i].0@ == dep ==> optional_flag(table_of(m, ("dependencies")@)[i].1),
        !table_has_key_in(m, ("build-dependencies")@, dep),
        !table_has_key_in(m, ("dev-dependencies")@, dep),
    ensures
        declared_kinds(m, cfg, dep).is_empty(),
{
    match doc_get(m, ("dependencies")@) {
        Some(DocValue::Table(es)) => {
            assert(table_of(m, ("dependencies")@) == es@);
            assert forall|i: int|
                0 <= i < es@.len() && #[trigger] es@[i].0@ == dep implies dep_contribution(
                es@[i].1,
                cfg,
            ).is_empty() by {
                assert(optional_flag(es@[i].1));
                assert(dep_contribution(es@[i].1, cfg) =~= Set::<DepKind>::empty());
            }
            lemma_deps_table_empty(es@, cfg, dep);
        },
        _ => {},
    }
    assert(declared_kinds(m, cfg, dep) =~= Set::<DepKind>::empty());
}

pub open spec fn table_has_key_in(m: DocValue, key: Seq<char>, dep: Seq<char>) -> bool {
    match doc_get(m, key) {
        Some(DocValue::Table(es)) => table_has_key(es@, dep),
        _ => false,
    }
}

/// The kind set the map holds for a key; an absent key holds nothing.
pub open spec fn map_kinds(entries: Seq<(String, Vec<DepKind>)>, key: Seq<char>) -> Set<DepKind> {
    match dkm_get(entries, key) {
        Some(s) => kinds_set(s),
        None => Set::empty(),
    }
}

proof fn lemma_kinds_set_push(s: Seq<DepKind>, k: DepKind)
    ensures
        kinds_set(s.push(k)) == kinds_set(s).insert(k),
{
    assert forall|x: DepKind| #[trigger] kinds_set(s.push(k)).contains(x) implies kinds_set(
        s,
    ).insert(k).contains(x) by {
        let w = choose|w: int| 0 <= w < s.push(k).len() && s.push(k)[w] == x;
        if w < s.len() {
            assert(s[w] == x);
        }
    }
    assert forall|x: DepKind| kinds_set(s).insert(k).contains(x) implies #[trigger] kinds_set(
        s.push(k),
    ).contains(x) by {
        if x == k {
            assert(s.push(k)[s.len() as int] == x);
        } else {
            let w = choose|w: int| 0 <= w < s.len() && s[w] == x;
            assert(s.push(k)[w] == x);
        }
    }
    assert(kinds_set(s.push(k)) =~= kinds_set(s).insert(k));
}

proof fn lemma_kinds_set_single(k: DepKind)
    ensures
        kinds_set(seq![k]) == Set::empty().insert(k),
{
    assert(seq![k][0] == k);
    assert forall|x: DepKind| #[trigger] kinds_set(seq![k]).contains(x) implies x == k by {
        let w = choose|w: int| 0 <= w < 1 && seq![k][w] == x;
    }
    assert(kinds_set(seq![k]) =~= Set::empty().insert(k));
}

/// `add_kind` at the level of kind sets: the key gains the kind, every
/// other key keeps what it had.
proof fn lemma_add_kind_sets(
    pre: Seq<(String, Vec<DepKind>)>,
    post: Seq<(String, Vec<DepKind>)>,
    key: Seq<char>,
    kind: DepKind,
)
    requires
        dkm_get(post, key) == match dkm_get(pre, key) {
            Some(s) => Some(s.push(kind)),
            None => Some(seq![kind]),
        },
        forall|k: Seq<char>| k != key ==> #[trigger] dkm_get(post, k) == dkm_get(pre, k),
    ensures
        map_kinds(post, key) == map_kinds(pre, key).insert(kind),
        dkm_get(post, key) is Some,
        forall|k: Seq<char>| k != key ==> #[trigger] map_kinds(post, k) == map_kinds(pre, k),
        forall|k: Seq<char>|
            k != key ==> ((#[trigger] dkm_get(post, k) is Some) == (dkm_get(pre, k) is Some)),
{
    match dkm_get(pre, key) {
        Some(s) => {
            lemma_kinds_set_push(s, kind);
        },
        None => {
            lemma_kinds_set_single(kind);
            assert(map_kinds(pre, key) =~= Set::<DepKind>::empty());
            assert(map_kinds(pre, key).insert(kind) =~= Set::empty().insert(kind));
        },
    }
}

/// Records one kind for every name of a flat table (the build or dev
/// dependencies), leaving every other name alone.
#[verifier::loop_isolation(false)]
fn add_flat_table(map: &mut DepKindsMap, entries: &Vec<(String, DocValue)>, kind: DepKind)
    ensures
        forall|dep: Seq<char>|
            #[trigger] map_kinds(final(map).entries@, dep) == if table_has_key(entries@, dep) {
                map_kinds(old(map).entries@, dep).insert(kind)
            } else {
                map_kinds(old(map).entries@, dep)
            },
        forall|dep: Seq<char>|
            (#[trigger] dkm_get(final(map).entries@, dep) is Some) == (dkm_get(
                old(map).entries@,
                dep,
            ) is Some || table_has_key(entries@, dep)),
{
    let ghost base = map.entries@;
    let mut i: usize = 0;
    while i < entries.len()
        invariant
            0 <= i <= entries@.len(),
            forall|dep: Seq<char>|
                #[trigger] map_kinds(map.entries@, dep) == if table_has_key(
                    entries@.take(i as int),
                    dep,
                ) {
                    map_kinds(base, dep).insert(kind)
                } else {
                    map_kinds(base, dep)
                },
            forall|dep: Seq<char>|
                (#[trigger] dkm_get(map.entries@, dep) is Some) == (dkm_get(base, dep) is Some
                    || table_has_key(entries@.take(i as int), dep)),
        decreases entries@.len() - i,
    {
        let ghost pre = map.entries@;
        let name = entries[i].0.clone();
        let ghost dep0 = name@;
        add_kind(map, name, kind);
        proof {
            lemma_add_kind_sets(pre, map.entries@, dep0, kind);
            assert(entries@.take(i as int + 1)[i as int].0@ == dep0);
            assert forall|dep: Seq<char>|
                #[trigger] table_has_key(entries@.take(i as int + 1), dep) == (table_has_key(
                entries@.take(i as int),
                dep,
            ) || dep == dep0) by {
                if table_has_key(entries@.take(i as int + 1), dep) {
                    let w = choose|w: int|
                        0 <= w < i + 1 && #[trigger] entries@.take(i as int + 1)[w].0@ == dep;
                    if w < i {
                        assert(entries@.take(i as int)[w].0@ == dep);
                    }
                } else {
                }
                if table_has_key(entries@.take(i as int), dep) {
                    let w = choose|w: int|
                        0 <= w < i && #[trigger] entries@.take(i as int)[w].0@ == dep;
                    assert(entries@.take(i as int + 1)[w].0@ == dep);
                }
                if dep == dep0 {
                    assert(entries@.take(i as int + 1)[i as int].0@ == dep);
                }
            }
            assert forall|dep: Seq<char>|
                #[trigger] map_kinds(map.entries@, dep) == if table_has_key(
                    entries@.take(i as int + 1),
                    dep,
                ) {
                    map_kinds(base, dep).insert(kind)
                } else {
                    map_kinds(base, dep)
                } by {
                if dep == dep0 {
                    if table_has_key(entries@.take(i as int), dep) {
                        assert(map_kinds(pre, dep) == map_kinds(base, dep).insert(kind));
                        assert(map_kinds(base, dep).insert(kind).insert(kind) =~= map_kinds(
                            base,
                            dep,
                        ).insert(kind));
                    }
                }
            }
        }
        i += 1;
    }
    proof {
        assert(entries@.take(entries@.len() as int) =~= entries@);
    }
}


/// Records the kinds of the main dependencies table: each entry adds what
/// its optional flag and the configuration give it.
#[verifier::loop_isolation(false)]
fn add_deps_table(map: &mut DepKindsMap, entries: &Vec<(String, DocValue)>, cfg: &Config)
    requires
        old(map).entries@.len() == 0,
    ensures
        forall|dep: Seq<char>|
            #[trigger] map_kinds(final(map).entries@, dep) == deps_table_kinds(
                entries@,
                cfg@,
                dep,
            ),
        forall|dep: Seq<char>|
            (#[trigger] dkm_get(final(map).entries@, dep) is Some) ==> !deps_table_kinds(
                entries@,
                cfg@,
                dep,
            ).is_empty(),
        forall|dep: Seq<char>|
            !deps_table_kinds(entries@, cfg@, dep).is_empty() ==> (#[trigger] dkm_get(
                final(map).entries@,
                dep,
            ) is Some),
{
    let mut i: usize = 0;
    proof {
        assert forall|dep: Seq<char>|
            #[trigger] map_kinds(map.entries@, dep) == deps_table_kinds(
                entries@.take(0),
                cfg@,
                dep,
            ) by {
            assert(dkm_get(map.entries@, dep) is None);
            assert(entries@.take(0) =~= Seq::<(String, DocValue)>::empty());
            assert(map_kinds(map.entries@, dep) =~= Set::<DepKind>::empty());
        }
    }
    while i < entries.len()
        invariant
            0 <= i <= entries@.len(),
            forall|dep: Seq<char>|
                #[trigger] map_kinds(map.entries@, dep) == deps_table_kinds(
                    entries@.take(i as int),
                    cfg@,
                    dep,
                ),
            forall|dep: Seq<char>|
                (#[trigger] dkm_get(map.entries@, dep) is Some) ==> !deps_table_kinds(
                    entries@.take(i as int),
                    cfg@,
                    dep,
                ).is_empty(),
            forall|dep: Seq<char>|
                !deps_table_kinds(entries@.take(i as int), cfg@, dep).is_empty() ==> (
                #[trigger] dkm_get(map.entries@, dep) is Some),
        decreases entries@.len() - i,
    {
        let ghost pre = map.entries@;
        let ghost dep0 = entries@[i as int].0@;
        let optional = match entries[i].1.get("optional") {
            Some(DocValue::Bool(true)) => true,
            _ => false,
        };
        proof {
            assert(optional == optional_flag(entries@[i as int].1));
        }
        let mut added: Option<DepKind> = None;
        if optional {
            if cfg.optional_deps {
                added = Some(DepKind::Optional);
            }
        } else if cfg.regular_deps {
            added = Some(DepKind::Regular);
        }
        let ghost contribution = dep_contribution(entries@[i as int].1, cfg@);
        match added {
            Some(kind) => {
                let name = entries[i].0.clone();
                add_kind(map, name, kind);
                proof {
                    lemma_add_kind_sets(pre, map.entries@, dep0, kind);
                    assert(contribution =~= Set::empty().insert(kind));
                }
            },
            None => {
                proof {
                    assert(contribution =~= Set::<DepKind>::empty());
                }
            },
        }
        proof {
            let next = entries@.take(i as int + 1);
            assert(next.drop_last() =~= entries@.take(i as int));
            assert(next.last() == entries@[i as int]);
            assert forall|dep: Seq<char>|
                #[trigger] deps_table_kinds(next, cfg@, dep) == deps_table_kinds(
                entries@.take(i as int),
                cfg@,
                dep,
            ).union(if dep == dep0 {
                contribution
            } else {
                Set::empty()
            }) by {}
            assert forall|dep: Seq<char>|
                #[trigger] map_kinds(map.entries@, dep) == deps_table_kinds(next, cfg@, dep) by {
                if dep == dep0 {
                    match added {
                        Some(kind) => {
                            assert(map_kinds(map.entries@, dep) == map_kinds(pre, dep).insert(
                                kind,
                            ));
                            assert(map_kinds(pre, dep).insert(kind) =~= map_kinds(
                                pre,
                                dep,
                            ).union(contribution));
                        },
                        None => {
                            assert(map_kinds(pre, dep).union(contribution) =~= map_kinds(
                                pre,
                                dep,
                            ));
                        },
                    }
                } else {
                    assert(map_kinds(map.entries@, dep) == map_kinds(pre, dep));
                    assert(map_kinds(pre, dep).union(Set::empty()) =~= map_kinds(pre, dep));
                }
            }
            assert forall|dep: Seq<char>|
                (#[trigger] dkm_get(map.entries@, dep) is Some) implies !deps_table_kinds(
                next,
                cfg@,
                dep,
            ).is_empty() by {
                if dkm_get(pre, dep) is Some {
                    assert(!deps_table_kinds(entries@.take(i as int), cfg@, dep).is_empty());
                    let x = choose|x: DepKind|
                        deps_table_kinds(entries@.take(i as int), cfg@, dep).contains(x);
                    assert(deps_table_kinds(next, cfg@, dep).contains(x));
                } else {
                    assert(dep == dep0 && added is Some);
                    assert(map_kinds(map.entries@, dep).contains(added.unwrap()));
                }
            }
            assert forall|dep: Seq<char>|
                !deps_table_kinds(next, cfg@, dep).is_empty() implies (#[trigger] dkm_get(
                map.entries@,
                dep,
            ) is Some) by {
                let x = choose|x: DepKind| deps_table_kinds(next, cfg@, dep).contains(x);
                if deps_table_kinds(entries@.take(i as int), cfg@, dep).contains(x) {
                } else {
                    assert(dep == dep0 && contribution.contains(x));
                    assert(added is Some);
                }
            }
        }
        i += 1;
    }
    proof {
        assert(entries@.take(entries@.len() as int) =~= entries@);
    }
}


/// First space at or after `i`, or the length when there is none.
pub open spec fn space_from(s: Seq<char>, i: int) -> int
    decreases s.len() - i,
{
    if i < 0 || i >= s.len() {
        s.len() as int
    } else if s[i] == ' ' {
        i
    } else {
        space_from(s, i + 1)
    }
}

/// A lock-file dependency string names a crate and its version as the
/// first two space-separated tokens; later tokens are ignored.
pub open spec fn dep_tokens(s: Seq<char>) -> Option<(Seq<char>, Seq<char>)> {
    let sp1 = space_from(s, 0);
    if sp1 >= s.len() {
        None
    } else {
        Some(
            (
                s.subrange(0, sp1),
                s.subrange(sp1 + 1, space_from(s, sp1 + 1)),
            ),
        )
    }
}

proof fn lemma_space_from_bounds(s: Seq<char>, i: int)
    ensures
        i <= space_from(s, i) || space_from(s, i) == s.len(),
        space_from(s, i) <= s.len(),
        0 <= i <= s.len() && space_from(s, i) < s.len() ==> s[space_from(s, i)] == ' '
            && space_from(s, i) >= i,
    decreases s.len() - i,
{
    if 0 <= i < s.len() && s[i] != ' ' {
        lemma_space_from_bounds(s, i + 1);
    }
}

/// Finds the first space at or after `from`.
#[verifier::loop_isolation(false)]
fn find_space(st: &str, from: usize) -> (r: usize)
    requires
        from <= st@.len(),
    ensures
        r == space_from(st@, from as int),
        from <= r <= st@.len(),
{
    let n = st.unicode_len();
    let mut j = from;
    while j < n
        invariant
            from <= j <= n,
            n == st@.len(),
            space_from(st@, from as int) == space_from(st@, j as int),
        decreases n - j,
    {
        if st.get_char(j) == ' ' {
            proof {
                lemma_space_from_bounds(st@, from as int);
            }
            return j;
        }
        j += 1;
    }
    proof {
        lemma_space_from_bounds(st@, from as int);
    }
    n
}

/// Splits a dependency string into its name and version tokens.
fn split_dep(st: &str) -> (r: Option<(String, String)>)
    ensures
        match r {
            Some(p) => dep_tokens(st@) == Some((p.0@, p.1@)),
            None => dep_tokens(st@) is None,
        },
{
    let n = st.unicode_len();
    let sp1 = find_space(st, 0);
    if sp1 >= n {
        return None;
    }
    let sp2 = find_space(st, sp1 + 1);
    let name = st.substring_char(0, sp1).to_owned();
    let ver = st.substring_char(sp1 + 1, sp2).to_owned();
    Some((name, ver))
}

/// The name and version strings a lock entry carries.
pub open spec fn pkg_name_ver(pkg: DocValue) -> Option<(Seq<char>, Seq<char>)> {
    match (doc_as_str(doc_get(pkg, ("name")@)), doc_as_str(doc_get(pkg, ("version")@))) {
        (Some(n), Some(v)) => Some((n, v)),
        _ => None,
    }
}

/// Whether some declared root carries exactly this name and version.
pub open spec fn roots_match(roots: Seq<RootCrate>, n: Seq<char>, v: Seq<char>) -> bool {
    exists|i: int| 0 <= i < roots.len() && #[trigger] roots[i].name@ == n && roots[i].ver@ == v
}


/// The string a lock dependency entry carries; a non-string entry reads
/// as empty, which no split accepts.
pub open spec fn dep_entry_str(d: DocValue) -> Seq<char> {
    match d {
        DocValue::Str(st) => st@,
        _ => Seq::empty(),
    }
}

/// Whether every dependency string of a lock entry splits into a name and
/// a version.
pub open spec fn deps_all_wellformed(pkg: DocValue) -> bool {
    match doc_get(pkg, ("dependencies")@) {
        Some(DocValue::Arr(ds)) => forall|i: int|
            0 <= i < ds@.len() ==> dep_tokens(dep_entry_str(#[trigger] ds@[i])) is Some,
        _ => true,
    }
}

/// Exactly when a lock entry is accepted: it must name a package and a
/// version; a name the filter drops is accepted and ignored; otherwise a
/// root's locked version must match the manifest and every dependency
/// string must be well formed.
pub open spec fn package_ok(
    pkg: DocValue,
    cfg: ConfigView,
    rdm: Seq<(String, DepKindsMap)>,
    roots: Seq<RootCrate>,
) -> bool {
    match pkg_name_ver(pkg) {
        None => false,
        Some(nv) => !filter_allows(cfg, nv.0) || {
            &&& rdm_get(rdm, nv.0) is Some ==> roots_match(roots, nv.0, nv.1)
            &&& deps_all_wellformed(pkg)
        },
    }
}

/// What node lookup-or-creation does to the rest of the graph: old nodes
/// keep their fields, a created node starts unmarked, and the key's node
/// exists afterwards.
pub proof fn lemma_foa_effects(g: GraphView, n: Seq<char>, v: Seq<char>)
    ensures
        ({
            let (g1, i) = view_find_or_add(g, n, v);
            &&& g1.nodes.len() >= g.nodes.len()
            &&& forall|t: int| 0 <= t < g.nodes.len() ==> #[trigger] g1.nodes[t] == g.nodes[t]
            &&& forall|t: int|
                g.nodes.len() <= t < g1.nodes.len() ==> !(#[trigger] g1.nodes[t].duplicate)
            &&& g1.edges == g.edges
            &&& g1.order == g.order
            &&& 0 <= i < g1.nodes.len()
            &&& g1.nodes[i].name == n && g1.nodes[i].ver == v
        }),
{
    lemma_view_find_found(g.nodes, n, v);
    match view_find(g.nodes, n, v) {
        Some(i) => {},
        None => {},
    }
}

/// What edge creation does to the node store: the same as node creation,
/// and the child node is the one returned.
pub proof fn lemma_add_child_effects(
    g: GraphView,
    p: int,
    n: Seq<char>,
    v: Seq<char>,
    ks: Set<DepKind>,
)
    ensures
        ({
            let (g2, c) = view_add_child(g, p, n, v, ks);
            &&& g2.nodes.len() >= g.nodes.len()
            &&& forall|t: int| 0 <= t < g.nodes.len() ==> #[trigger] g2.nodes[t] == g.nodes[t]
            &&& forall|t: int|
                g.nodes.len() <= t < g2.nodes.len() ==> !(#[trigger] g2.nodes[t].duplicate)
            &&& g2.order == g.order
            &&& 0 <= c < g2.nodes.len()
            &&& g2.nodes[c].name == n && g2.nodes[c].ver == v
        }),
{
    lemma_foa_effects(g, n, v);
}

/// Two node stores that agree on every name and version agree on lookup.
pub proof fn lemma_view_find_names(
    a: Seq<crate::graph::NodeView>,
    b: Seq<crate::graph::NodeView>,
    n: Seq<char>,
    v: Seq<char>,
)
    requires
        a.len() == b.len(),
        forall|t: int|
            0 <= t < a.len() ==> #[trigger] a[t].name == b[t].name && a[t].ver == b[t].ver,
    ensures
        view_find(a, n, v) == view_find(b, n, v),
    decreases a.len(),
{
    if a.len() > 0 {
        assert forall|t: int|
            0 <= t < a.len() - 1 implies #[trigger] a.drop_first()[t].name == b.drop_first()[
            t
        ].name && a.drop_first()[t].ver == b.drop_first()[t].ver by {
            assert(a.drop_first()[t] == a[t + 1]);
            assert(b.drop_first()[t] == b[t + 1]);
        }
        lemma_view_find_names(a.drop_first(), b.drop_first(), n, v);
    }
}


/// Kind maps keyed by root-crate name: why each edge out of a root exists.
#[derive(Debug)]
pub struct RootDepsMap {
    pub entries: Vec<(String, DepKindsMap)>,
}

/// First kind map stored under a root name.
pub open spec fn rdm_get(entries: Seq<(String, DepKindsMap)>, key: Seq<char>) -> Option<DepKindsMap>
    decreases entries.len(),
{
    if entries.len() == 0 {
        None
    } else if entries[0].0@ == key {
        Some(entries[0].1)
    } else {
        rdm_get(entries.drop_first(), key)
    }
}

proof fn lemma_rdm_get_at(entries: Seq<(String, DepKindsMap)>, key: Seq<char>, i: int)
    requires
        0 <= i < entries.len(),
        entries[i].0@ == key,
        forall|j: int| 0 <= j < i ==> #[trigger] entries[j].0@ != key,
    ensures
        rdm_get(entries, key) == Some(entries[i].1),
    decreases entries.len(),
{
    if i > 0 {
        lemma_rdm_get_at(entries.drop_first(), key, i - 1);
    }
}

proof fn lemma_rdm_get_none(entries: Seq<(String, DepKindsMap)>, key: Seq<char>)
    requires
        forall|j: int| 0 <= j < entries.len() ==> #[trigger] entries[j].0@ != key,
    ensures
        rdm_get(entries, key) is None,
    decreases entries.len(),
{
    if entries.len() > 0 {
        lemma_rdm_get_none(entries.drop_first(), key);
    }
}

proof fn lemma_rdm_get_push(entries: Seq<(String, DepKindsMap)>, e: (String, DepKindsMap))
    ensures
        rdm_get(entries, e.0@) is None ==> rdm_get(entries.push(e), e.0@) == Some(e.1),
        forall|k: Seq<char>|
            k != e.0@ ==> #[trigger] rdm_get(entries.push(e), k) == rdm_get(entries, k),
    decreases entries.len(),
{
    let pushed = entries.push(e);
    if entries.len() > 0 {
        assert(pushed[0] == entries[0]);
        assert(pushed.drop_first() =~= entries.drop_first().push(e));
        lemma_rdm_get_push(entries.drop_first(), e);
        assert forall|k: Seq<char>|
            k != e.0@ implies #[trigger] rdm_get(pushed, k) == rdm_get(entries, k) by {
            if entries[0].0@ != k {
                assert(rdm_get(pushed.drop_first(), k) == rdm_get(entries.drop_first(), k));
            }
        }
    } else {
        assert(pushed.drop_first() =~= Seq::<(String, DepKindsMap)>::empty());
        assert(pushed[0] == e);
        assert forall|k: Seq<char>|
            k != e.0@ implies #[trigger] rdm_get(pushed, k) == rdm_get(entries, k) by {
            assert(rdm_get(pushed, k) == rdm_get(pushed.drop_first(), k));
        }
    }
}

impl RootDepsMap {
    /// An empty root map.
    pub fn new() -> (m: RootDepsMap)
        ensures
            m.entries@.len() == 0,
    {
        RootDepsMap { entries: Vec::new() }
    }

    /// The kind map of this root, if it is known.
    pub fn get<'a>(&'a self, name: &str) -> (r: Option<&'a DepKindsMap>)
        ensures
            match r {
                Some(m) => rdm_get(self.entries@, name@) == Some(*m),
                None => rdm_get(self.entries@, name@) is None,
            },
    {
        let ghost all = self.entries@;
        let mut i: usize = 0;
        while i < self.entries.len()
            invariant
                all == self.entries@,
                0 <= i <= self.entries.len(),
                forall|j: int| 0 <= j < i ==> #[trigger] all[j].0@ != name@,
            decreases self.entries.len() - i,
        {
            if str_eq(self.entries[i].0.as_str(), name) {
                proof {
                    lemma_rdm_get_at(all, name@, i as int);
                }
                return Some(&self.entries[i].1);
            }
            i += 1;
        }
        proof {
            lemma_rdm_get_none(all, name@);
        }
        None
    }

    /// Whether this root is known.
    pub fn contains_key(&self, name: &str) -> (r: bool)
        ensures
            r == (rdm_get(self.entries@, name@) is Some),
    {
        match self.get(name) {
            Some(_) => true,
            None => false,
        }
    }

    /// Stores the kind map of a root seen for the first time.
    pub fn insert(&mut self, name: String, map: DepKindsMap)
        requires
            rdm_get(old(self).entries@, name@) is None,
        ensures
            rdm_get(final(self).entries@, name@) == Some(map),
            final(self).entries@.len() == old(self).entries@.len() + 1,
            final(self).entries@.last().0@ == name@,
            final(self).entries@.last().1 == map,
            forall|t: int|
                0 <= t < old(self).entries@.len() ==> #[trigger] final(self).entries@[t] == old(
                    self,
                ).entries@[t],
            forall|k: Seq<char>|
                k != name@ ==> #[trigger] rdm_get(final(self).entries@, k) == rdm_get(
                    old(self).entries@,
                    k,
                ),
    {
        let ghost all = self.entries@;
        let ghost entry_key = name@;
        self.entries.push((name, map));
        proof {
            let e = self.entries@.last();
            assert(self.entries@ =~= all.push(e));
            lemma_rdm_get_push(all, e);
        }
    }
}

/// A copy of a kind list.
#[verifier::loop_isolation(false)]
fn clone_kinds(v: &Vec<DepKind>) -> (r: Vec<DepKind>)
    ensures
        r@ == v@,
{
    let mut r: Vec<DepKind> = Vec::new();
    let mut i: usize = 0;
    while i < v.len()
        invariant
            0 <= i <= v@.len(),
            r@ == v@.take(i as int),
        decreases v@.len() - i,
    {
        r.push(v[i]);
        proof {
            assert(r@ =~= v@.take(i as int + 1));
        }
        i += 1;
    }
    proof {
        assert(v@.take(v@.len() as int) =~= v@);
    }
    r
}

/// The whole pipeline's owner: it holds the configuration and turns the
/// two parsed documents into the finished graph.
#[derive(Debug)]
pub struct Project {
    pub cfg: Config,
}


/// The kinds an edge gets at creation: what the parent root's kind map
/// declares for the dependency; a parent that is no root declares none.
pub open spec fn dep_call_kinds(
    rdm: Seq<(String, DepKindsMap)>,
    parent_name: Seq<char>,
    dep: Seq<char>,
) -> Set<DepKind> {
    match rdm_get(rdm, parent_name) {
        Some(km) => match dkm_get(km.entries@, dep) {
            Some(s) => kinds_set(s),
            None => Set::empty(),
        },
        None => Set::empty(),
    }
}

/// Whether one dependency string of this parent adds an edge: the filter
/// must let the dependency through, and a root's dependency must stand in
/// its kind map — one dropped when the map was built adds nothing at all.
pub open spec fn dep_adds_edge(
    cfg: ConfigView,
    rdm: Seq<(String, DepKindsMap)>,
    parent_name: Seq<char>,
    dep: Seq<char>,
) -> bool {
    &&& filter_allows(cfg, dep)
    &&& match rdm_get(rdm, parent_name) {
        Some(km) => dkm_get(km.entries@, dep) is Some,
        None => true,
    }
}

/// The graph after the first `k` dependency strings of one lock entry:
/// each surviving string adds or merges one edge under its declared kinds.
pub open spec fn walk_deps(
    g: GraphView,
    cfg: ConfigView,
    rdm: Seq<(String, DepKindsMap)>,
    parent: int,
    parent_name: Seq<char>,
    ds: Seq<DocValue>,
    k: int,
) -> GraphView
    decreases k,
{
    if k <= 0 {
        g
    } else {
        let g1 = walk_deps(g, cfg, rdm, parent, parent_name, ds, k - 1);
        match dep_tokens(dep_entry_str(ds[k - 1])) {
            Some(nv) => if dep_adds_edge(cfg, rdm, parent_name, nv.0) {
                view_add_child(g1, parent, nv.0, nv.1, dep_call_kinds(rdm, parent_name, nv.0)).0
            } else {
                g1
            },
            None => g1,
        }
    }
}

/// The whole effect of one accepted lock entry: the entry's node is found
/// or created, then its dependency strings are walked in order.
pub open spec fn spec_parse_package(
    g: GraphView,
    cfg: ConfigView,
    rdm: Seq<(String, DepKindsMap)>,
    pkg: DocValue,
) -> GraphView {
    match pkg_name_ver(pkg) {
        Some(nv) => if !filter_allows(cfg, nv.0) {
            g
        } else {
            let fa = view_find_or_add(g, nv.0, nv.1);
            match doc_get(pkg, ("dependencies")@) {
                Some(DocValue::Arr(ds)) => walk_deps(
                    fa.0,
                    cfg,
                    rdm,
                    fa.1,
                    nv.0,
                    ds@,
                    ds@.len() as int,
                ),
                _ => fa.0,
            }
        },
        None => g,
    }
}

/// Reads one lock entry into the graph: the node is created or found, a
/// root's locked version is held against the manifest, and each of its
/// dependency strings adds one edge, under the kinds the manifest declared
/// for it; names the filter drops add nothing at all.
#[verifier::loop_isolation(false)]
#[verifier::rlimit(100)]
pub fn parse_package(dg: &mut DepGraph, pkg: &DocValue, root_crates: &Vec<RootCrate>) -> (r:
    CliResult<()>)
    requires
        old(dg).wf(),
    ensures
        final(dg).wf(),
        final(dg).cfg == old(dg).cfg,
        final(dg).root_deps_map == old(dg).root_deps_map,
        final(dg)@.order == old(dg)@.order,
        final(dg)@.nodes.len() >= old(dg)@.nodes.len(),
        forall|t: int|
            0 <= t < old(dg)@.nodes.len() ==> {
                let n0 = old(dg)@.nodes[t];
                let n1 = #[trigger] final(dg)@.nodes[t];
                n1.name == n0.name && n1.ver == n0.ver && n1.duplicate == n0.duplicate
            },
        forall|t: int|
            old(dg)@.nodes.len() <= t < final(dg)@.nodes.len()
                ==> !(#[trigger] final(dg)@.nodes[t].duplicate),
        pkg_name_ver(*pkg) is None ==> r is Err && final(dg)@ == old(dg)@,
        pkg_name_ver(*pkg) matches Some(nv) ==> {
            &&& !filter_allows(old(dg).cfg@, nv.0) ==> r is Ok && final(dg)@ == old(dg)@
            &&& filter_allows(old(dg).cfg@, nv.0) ==> {
                &&& view_find(final(dg)@.nodes, nv.0, nv.1) is Some
                &&& (rdm_get(old(dg).root_deps_map.entries@, nv.0) is Some && !roots_match(
                    root_crates@,
                    nv.0,
                    nv.1,
                ) <==> r matches Err(CliError::Generic(_)))
            }
        },
        r is Ok <==> package_ok(
            *pkg,
            old(dg).cfg@,
            old(dg).root_deps_map.entries@,
            root_crates@,
        ),
        r is Ok ==> final(dg)@ == spec_parse_package(
            old(dg)@,
            old(dg).cfg@,
            old(dg).root_deps_map.entries@,
            *pkg,
        ),
        r matches Err(e) ==> e is Toml || e is Generic,
    {
    let ghost g0 = dg@;
    let name = match pkg.get("name") {
        Some(d) => match d.as_str() {
            Some(s) => s.clone(),
            None => {
                return Err(
                    CliError::Toml(
                        String::from_str("Missing or malformed 'name' field in lock entry"),
                    ),
                );
            },
        },
        None => {
            return Err(
                CliError::Toml(String::from_str("Missing or malformed 'name' field in lock entry")),
            );
        },
    };
    let ver = match pkg.get("version") {
        Some(d) => match d.as_str() {
            Some(s) => s.clone(),
            None => {
                return Err(
                    CliError::Toml(
                        String::from_str("Missing or malformed 'version' field in lock entry"),
                    ),
                );
            },
        },
        None => {
            return Err(
                CliError::Toml(
                    String::from_str("Missing or malformed 'version' field in lock entry"),
                ),
            );
        },
    };
    proof {
        assert(pkg_name_ver(*pkg) == Some((name@, ver@)));
    }
    let allowed = match &dg.cfg.filter {
        None => true,
        Some(f) => crate::util::name_in_list(f, name.as_str()),
    };
    if !allowed {
        return Ok(());
    }
    let id = dg.find_or_add(name.as_str(), ver.as_str());
    proof {
        lemma_foa_effects(g0, name@, ver@);
        lemma_view_find_found(dg@.nodes, name@, ver@);
    }
    let is_root = dg.root_deps_map.contains_key(name.as_str());
    if is_root {
        let mut found = false;
        let mut i: usize = 0;
        while i < root_crates.len()
            invariant
                0 <= i <= root_crates@.len(),
                found == (exists|t: int|
                    0 <= t < i && #[trigger] root_crates@[t].name@ == name@ && root_crates@[
                        t
                    ].ver@ == ver@),
            decreases root_crates@.len() - i,
        {
            if str_eq(root_crates[i].name.as_str(), name.as_str()) && str_eq(
                root_crates[i].ver.as_str(),
                ver.as_str(),
            ) {
                found = true;
            }
            i += 1;
        }
        if !found {
            let mut msg = String::from_str("Version ");
            msg.append(ver.as_str());
            msg.append(" of root crate '");
            msg.append(name.as_str());
            msg.append("' in the lock file does not match the version in the manifest");
            return Err(CliError::Generic(msg));
        }
    }
    let ghost rdmv = old(dg).root_deps_map.entries@;
    let ghost cfgv = old(dg).cfg@;
    let deps = match pkg.get("dependencies") {
        Some(DocValue::Arr(ds)) => ds,
        _ => {
            proof {
                assert(dg@ == spec_parse_package(g0, cfgv, rdmv, *pkg));
            }
            return Ok(());
        },
    };
    let ghost g1 = dg@;
    let mut d: usize = 0;
    while d < deps.len()
        invariant
            0 <= d <= deps@.len(),
            dg.wf(),
            dg.cfg == old(dg).cfg,
            dg.root_deps_map == old(dg).root_deps_map,
            dg@.order == old(dg)@.order,
            dg@.nodes.len() >= g1.nodes.len(),
            forall|t: int| 0 <= t < g1.nodes.len() ==> #[trigger] dg@.nodes[t] == g1.nodes[t],
            forall|t: int|
                g1.nodes.len() <= t < dg@.nodes.len() ==> !(#[trigger] dg@.nodes[t].duplicate),
            0 <= id < g1.nodes.len(),
            dg@.nodes[id as int].name == name@ && dg@.nodes[id as int].ver == ver@,
            forall|j: int|
                0 <= j < d ==> dep_tokens(dep_entry_str(#[trigger] deps@[j])) is Some,
            dg@ == walk_deps(g1, cfgv, rdmv, id as int, name@, deps@, d as int),
        decreases deps@.len() - d,
    {
        let ghost gpre = dg@;
        let dep_str = match deps[d].as_str() {
            Some(st) => st.as_str(),
            None => "",
        };
        proof {
            reveal_strlit("");
            assert(("")@ =~= Seq::<char>::empty());
            assert(dep_str@ == dep_entry_str(deps@[d as int]));
        }
        let (dep_name, dep_ver) = match split_dep(dep_str) {
            Some(p) => p,
            None => {
                proof {
                    lemma_view_find_found(dg@.nodes, name@, ver@);
                    if view_find(dg@.nodes, name@, ver@) is None {
                        assert(!(dg@.nodes[id as int].name == name@ && dg@.nodes[
                            id as int
                        ].ver == ver@));
                    }
                }
                return Err(
                    CliError::Toml(
                        String::from_str("Malformed dependency entry in the lock file"),
                    ),
                );
            },
        };
        let dep_allowed = match &dg.cfg.filter {
            None => true,
            Some(f) => crate::util::name_in_list(f, dep_name.as_str()),
        };
        if dep_allowed {
            let kinds: Option<Vec<DepKind>> = match dg.root_deps_map.get(name.as_str()) {
                Some(m) => match m.get(dep_name.as_str()) {
                    Some(ks) => Some(clone_kinds(ks)),
                    None => None,
                },
                None => Some(Vec::new()),
            };
            match kinds {
                Some(ks) => {
                    proof {
                        assert(dep_adds_edge(cfgv, rdmv, name@, dep_name@));
                        assert(kinds_set(ks@) =~= dep_call_kinds(rdmv, name@, dep_name@));
                    }
                    dg.add_child(id, dep_name.as_str(), dep_ver.as_str(), &ks);
                    proof {
                        lemma_add_child_effects(
                            gpre,
                            id as int,
                            dep_name@,
                            dep_ver@,
                            kinds_set(ks@),
                        );
                        assert(dg@ == view_add_child(
                            gpre,
                            id as int,
                            dep_name@,
                            dep_ver@,
                            dep_call_kinds(rdmv, name@, dep_name@),
                        ).0);
                    }
                },
                None => {
                    proof {
                        assert(!dep_adds_edge(cfgv, rdmv, name@, dep_name@));
                    }
                },
            }
        }
        proof {
            assert(dg@ == walk_deps(g1, cfgv, rdmv, id as int, name@, deps@, d as int + 1));
        }
        d += 1;
    }
    proof {
        assert(dg@.nodes[id as int].name == name@ && dg@.nodes[id as int].ver == ver@);
        lemma_view_find_found(dg@.nodes, name@, ver@);
        if view_find(dg@.nodes, name@, ver@) is None {
            assert(!(dg@.nodes[id as int].name == name@ && dg@.nodes[id as int].ver == ver@));
        }
        assert(dg@ == spec_parse_package(g0, cfgv, rdmv, *pkg));
    }
    Ok(())
}

impl Project {
    /// A project around its finished configuration.
    pub fn with_config(cfg: Config) -> (r: CliResult<Self>)
        ensures
            r matches Ok(p) && p.cfg == cfg,
    {
        Ok(Project { cfg })
    }

    /// Builds the list of root crates the manifest declares, and the map
    /// of every kind it declares for each of their dependencies, filtered
    /// by the configured kind switches.
    pub fn parse_root_deps(&self, manifest: &DocValue) -> (r: CliResult<
        (Vec<RootCrate>, RootDepsMap),
    >)
        ensures
            r is Ok <==> manifest_package(*manifest) is Some,
            r matches Ok(p) ==> {
                let nv = manifest_package(*manifest).unwrap();
                &&& p.0@.len() == 1
                &&& p.0@[0].name@ == nv.0 && p.0@[0].ver@ == nv.1
                &&& p.1.entries@.len() == 1
                &&& p.1.entries@[0].0@ == nv.0
                &&& forall|dep: Seq<char>|
                    #[trigger] map_kinds(p.1.entries@[0].1.entries@, dep) == declared_kinds(
                        *manifest,
                        self.cfg@,
                        dep,
                    )
                &&& forall|dep: Seq<char>|
                    (#[trigger] dkm_get(p.1.entries@[0].1.entries@, dep) is Some)
                        == !declared_kinds(*manifest, self.cfg@, dep).is_empty()
            },
            r matches Err(e) ==> e is Toml,
    {
        let pkg = match manifest.get("package") {
            Some(t) => t,
            None => {
                return Err(CliError::Toml(String::from_str("No [package] table found")));
            },
        };
        let name = match pkg.get("name") {
            Some(d) => match d.as_str() {
                Some(s) => s.clone(),
                None => {
                    return Err(
                        CliError::Toml(
                            String::from_str("No 'name' or 'version' fields in [package] table"),
                        ),
                    );
                },
            },
            None => {
                return Err(
                    CliError::Toml(
                        String::from_str("No 'name' or 'version' fields in [package] table"),
                    ),
                );
            },
        };
        let ver = match pkg.get("version") {
            Some(d) => match d.as_str() {
                Some(s) => s.clone(),
                None => {
                    return Err(
                        CliError::Toml(
                            String::from_str("No 'name' or 'version' fields in [package] table"),
                        ),
                    );
                },
            },
            None => {
                return Err(
                    CliError::Toml(
                        String::from_str("No 'name' or 'version' fields in [package] table"),
                    ),
                );
            },
        };
        proof {
            assert(manifest_package(*manifest) == Some((name@, ver@)));
        }
        let mut dep_kinds_map = DepKindsMap::new();
        match manifest.get("dependencies") {
            Some(DocValue::Table(es)) => {
                add_deps_table(&mut dep_kinds_map, es, &self.cfg);
            },
            _ => {
                proof {
                    assert forall|dep: Seq<char>|
                        #[trigger] map_kinds(dep_kinds_map.entries@, dep) =~= (match doc_get(
                        *manifest,
                        ("dependencies")@,
                    ) {
                        Some(DocValue::Table(es2)) => deps_table_kinds(es2@, self.cfg@, dep),
                        _ => Set::empty(),
                    }) by {
                        assert(dkm_get(dep_kinds_map.entries@, dep) is None);
                    }
                }
            },
        }
        let ghost after_deps = dep_kinds_map.entries@;
        if self.cfg.build_deps {
            match manifest.get("build-dependencies") {
                Some(DocValue::Table(es)) => {
                    add_flat_table(&mut dep_kinds_map, es, DepKind::Build);
                },
                _ => {},
            }
        }
        let ghost after_build = dep_kinds_map.entries@;
        proof {
            assert forall|dep: Seq<char>|
                #[trigger] map_kinds(after_build, dep) =~= map_kinds(after_deps, dep).union(
                flat_table_kinds(
                    *manifest,
                    ("build-dependencies")@,
                    self.cfg@.build_deps,
                    DepKind::Build,
                    dep,
                ),
            ) by {}
            assert forall|dep: Seq<char>|
                (#[trigger] dkm_get(after_build, dep) is Some) == (dkm_get(after_deps, dep) is Some
                    || !flat_table_kinds(
                    *manifest,
                    ("build-dependencies")@,
                    self.cfg@.build_deps,
                    DepKind::Build,
                    dep,
                ).is_empty()) by {}
        }
        if self.cfg.dev_deps {
            match manifest.get("dev-dependencies") {
                Some(DocValue::Table(es)) => {
                    add_flat_table(&mut dep_kinds_map, es, DepKind::Dev);
                },
                _ => {},
            }
        }
        let ghost after_dev = dep_kinds_map.entries@;
        proof {
            assert forall|dep: Seq<char>|
                #[trigger] map_kinds(after_dev, dep) =~= declared_kinds(
                *manifest,
                self.cfg@,
                dep,
            ) by {
                assert(map_kinds(after_dev, dep) =~= map_kinds(after_build, dep).union(
                    flat_table_kinds(
                        *manifest,
                        ("dev-dependencies")@,
                        self.cfg@.dev_deps,
                        DepKind::Dev,
                        dep,
                    ),
                ));
            }
            assert forall|dep: Seq<char>|
                (#[trigger] dkm_get(after_dev, dep) is Some) == !declared_kinds(
                *manifest,
                self.cfg@,
                dep,
            ).is_empty() by {
                if dkm_get(after_dev, dep) is Some {
                    assert(!map_kinds(after_dev, dep).is_empty()) by {
                        if dkm_get(after_deps, dep) is Some {
                            assert(!deps_table_kinds_of(*manifest, self.cfg@, dep).is_empty());
                        }
                    }
                }
                if !declared_kinds(*manifest, self.cfg@, dep).is_empty() {
                    assert(!map_kinds(after_dev, dep).is_empty());
                    assert(dkm_get(after_dev, dep) is Some);
                }
            }
        }
        let root_crate = RootCrate { name: name.clone(), ver: ver.clone() };
        let mut roots: Vec<RootCrate> = Vec::new();
        roots.push(root_crate);
        let mut root_deps_map = RootDepsMap::new();
        root_deps_map.insert(name, dep_kinds_map);
        proof {
            assert(root_deps_map.entries@.len() == 1);
            assert(root_deps_map.entries@[0].0@ == manifest_package(*manifest).unwrap().0);
            assert(root_deps_map.entries@[0].1.entries@ == after_dev);
            assert(roots@.len() == 1);
            assert(roots@[0].name@ == manifest_package(*manifest).unwrap().0);
            assert(roots@[0].ver@ == manifest_package(*manifest).unwrap().1);
        }
        Ok((roots, root_deps_map))
    }
}



/// The lock entries in walk order: the optional root entry first, then
/// the package array.
pub open spec fn lock_entry_list(lock: DocValue) -> Seq<DocValue> {
    (match doc_get(lock, ("root")@) {
        Some(r) => seq![r],
        None => Seq::empty(),
    }) + (match doc_get(lock, ("package")@) {
        Some(DocValue::Arr(ps)) => ps@,
        _ => Seq::empty(),
    })
}

/// The graph after the first `k` lock entries.
pub open spec fn walk_lock(
    g: GraphView,
    cfg: ConfigView,
    rdm: Seq<(String, DepKindsMap)>,
    entries: Seq<DocValue>,
    k: int,
) -> GraphView
    decreases k,
{
    if k <= 0 {
        g
    } else {
        spec_parse_package(walk_lock(g, cfg, rdm, entries, k - 1), cfg, rdm, entries[k - 1])
    }
}

/// The graph value the lock document builds, from nothing, in one linear
/// walk of its entries.
pub open spec fn built_graph(
    cfg: ConfigView,
    rdm: Seq<(String, DepKindsMap)>,
    lock: DocValue,
) -> GraphView {
    walk_lock(
        GraphView { nodes: Seq::empty(), edges: Seq::empty(), order: Seq::empty() },
        cfg,
        rdm,
        lock_entry_list(lock),
        lock_entry_list(lock).len() as int,
    )
}

/// Whether every declared root crate has its node in the graph.
pub open spec fn roots_present(g: GraphView, roots: Seq<RootCrate>) -> bool {
    forall|t: int|
        0 <= t < roots.len() ==> view_find(
            g.nodes,
            #[trigger] roots[t].name@,
            roots[t].ver@,
        ) is Some
}

/// Whether every entry of the lock document is one the walk accepts.
pub open spec fn lock_entries_ok(
    lock: DocValue,
    cfg: ConfigView,
    rdm: Seq<(String, DepKindsMap)>,
    roots: Seq<RootCrate>,
) -> bool {
    &&& match doc_get(lock, ("root")@) {
        Some(r) => package_ok(r, cfg, rdm, roots),
        None => true,
    }
    &&& match doc_get(lock, ("package")@) {
        Some(DocValue::Arr(ps)) => forall|i: int|
            0 <= i < ps@.len() ==> package_ok(#[trigger] ps@[i], cfg, rdm, roots),
        _ => true,
    }
}


/// Whether `p` is the name of the root crate the manifest declares.
pub open spec fn is_root_name_m(m: DocValue, p: Seq<char>) -> bool {
    manifest_package(m) matches Some(nv) && nv.0 == p
}

/// `dep_adds_edge`, read off the manifest instead of a built kind map.
pub open spec fn dep_adds_edge_m(
    cfg: ConfigView,
    m: DocValue,
    parent_name: Seq<char>,
    dep: Seq<char>,
) -> bool {
    &&& filter_allows(cfg, dep)
    &&& is_root_name_m(m, parent_name) ==> !declared_kinds(m, cfg, dep).is_empty()
}

/// `dep_call_kinds`, read off the manifest instead of a built kind map.
pub open spec fn dep_call_kinds_m(
    cfg: ConfigView,
    m: DocValue,
    parent_name: Seq<char>,
    dep: Seq<char>,
) -> Set<DepKind> {
    if is_root_name_m(m, parent_name) {
        declared_kinds(m, cfg, dep)
    } else {
        Set::empty()
    }
}

/// A built kind map models the manifest: the same parents count as roots,
/// the same dependencies add edges, and with the same kinds.
pub open spec fn rdm_models(
    rdm: Seq<(String, DepKindsMap)>,
    m: DocValue,
    cfg: ConfigView,
) -> bool {
    &&& forall|p: Seq<char>| (#[trigger] rdm_get(rdm, p) is Some) <==> is_root_name_m(m, p)
    &&& forall|p: Seq<char>, dep: Seq<char>|
        #[trigger] dep_adds_edge(cfg, rdm, p, dep) == dep_adds_edge_m(cfg, m, p, dep)
    &&& forall|p: Seq<char>, dep: Seq<char>|
        #[trigger] dep_call_kinds(rdm, p, dep) == dep_call_kinds_m(cfg, m, p, dep)
}

/// `walk_deps`, read off the manifest.
pub open spec fn walk_deps_m(
    g: GraphView,
    cfg: ConfigView,
    m: DocValue,
    parent: int,
    parent_name: Seq<char>,
    ds: Seq<DocValue>,
    k: int,
) -> GraphView
    decreases k,
{
    if k <= 0 {
        g
    } else {
        let g1 = walk_deps_m(g, cfg, m, parent, parent_name, ds, k - 1);
        match dep_tokens(dep_entry_str(ds[k - 1])) {
            Some(nv) => if dep_adds_edge_m(cfg, m, parent_name, nv.0) {
                view_add_child(g1, parent, nv.0, nv.1, dep_call_kinds_m(cfg, m, parent_name, nv.0)).0
            } else {
                g1
            },
            None => g1,
        }
    }
}

/// `spec_parse_package`, read off the manifest.
pub open spec fn spec_parse_package_m(
    g: GraphView,
    cfg: ConfigView,
    m: DocValue,
    pkg: DocValue,
) -> GraphView {
    match pkg_name_ver(pkg) {
        Some(nv) => if !filter_allows(cfg, nv.0) {
            g
        } else {
            let fa = view_find_or_add(g, nv.0, nv.1);
            match doc_get(pkg, ("dependencies")@) {
                Some(DocValue::Arr(ds)) => walk_deps_m(
                    fa.0,
                    cfg,
                    m,
                    fa.1,
                    nv.0,
                    ds@,
                    ds@.len() as int,
                ),
                _ => fa.0,
            }
        },
        None => g,
    }
}

/// `package_ok`, read off the manifest: the one root's locked version
/// must be the manifest's own.
pub open spec fn package_ok_m(pkg: DocValue, cfg: ConfigView, m: DocValue) -> bool {
    match pkg_name_ver(pkg) {
        None => false,
        Some(nv) => !filter_allows(cfg, nv.0) || {
            &&& is_root_name_m(m, nv.0) ==> manifest_package(m) == Some((nv.0, nv.1))
            &&& deps_all_wellformed(pkg)
        },
    }
}

/// `lock_entries_ok`, read off the manifest.
pub open spec fn lock_entries_ok_m(lock: DocValue, cfg: ConfigView, m: DocValue) -> bool {
    forall|i: int|
        0 <= i < lock_entry_list(lock).len() ==> package_ok_m(
            #[trigger] lock_entry_list(lock)[i],
            cfg,
            m,
        )
}

/// `walk_lock`, read off the manifest.
pub open spec fn walk_lock_m(
    g: GraphView,
    cfg: ConfigView,
    m: DocValue,
    entries: Seq<DocValue>,
    k: int,
) -> GraphView
    decreases k,
{
    if k <= 0 {
        g
    } else {
        spec_parse_package_m(walk_lock_m(g, cfg, m, entries, k - 1), cfg, m, entries[k - 1])
    }
}

/// The graph value the two documents determine, from nothing.
pub open spec fn built_graph_m(cfg: ConfigView, m: DocValue, lock: DocValue) -> GraphView {
    walk_lock_m(
        GraphView { nodes: Seq::empty(), edges: Seq::empty(), order: Seq::empty() },
        cfg,
        m,
        lock_entry_list(lock),
        lock_entry_list(lock).len() as int,
    )
}

proof fn lemma_walk_deps_models(
    g: GraphView,
    cfg: ConfigView,
    rdm: Seq<(String, DepKindsMap)>,
    m: DocValue,
    parent: int,
    parent_name: Seq<char>,
    ds: Seq<DocValue>,
    k: int,
)
    requires
        rdm_models(rdm, m, cfg),
    ensures
        walk_deps(g, cfg, rdm, parent, parent_name, ds, k) == walk_deps_m(
            g,
            cfg,
            m,
            parent,
            parent_name,
            ds,
            k,
        ),
    decreases k,
{
    if k > 0 {
        lemma_walk_deps_models(g, cfg, rdm, m, parent, parent_name, ds, k - 1);
    }
}

proof fn lemma_spp_models(
    g: GraphView,
    cfg: ConfigView,
    rdm: Seq<(String, DepKindsMap)>,
    m: DocValue,
    pkg: DocValue,
)
    requires
        rdm_models(rdm, m, cfg),
    ensures
        spec_parse_package(g, cfg, rdm, pkg) == spec_parse_package_m(g, cfg, m, pkg),
{
    match pkg_name_ver(pkg) {
        Some(nv) => {
            if filter_allows(cfg, nv.0) {
                let fa = view_find_or_add(g, nv.0, nv.1);
                match doc_get(pkg, ("dependencies")@) {
                    Some(DocValue::Arr(ds)) => {
                        lemma_walk_deps_models(
                            fa.0,
                            cfg,
                            rdm,
                            m,
                            fa.1,
                            nv.0,
                            ds@,
                            ds@.len() as int,
                        );
                    },
                    _ => {},
                }
            }
        },
        None => {},
    }
}

proof fn lemma_walk_lock_models(
    g: GraphView,
    cfg: ConfigView,
    rdm: Seq<(String, DepKindsMap)>,
    m: DocValue,
    entries: Seq<DocValue>,
    k: int,
)
    requires
        rdm_models(rdm, m, cfg),
    ensures
        walk_lock(g, cfg, rdm, entries, k) == walk_lock_m(g, cfg, m, entries, k),
    decreases k,
{
    if k > 0 {
        lemma_walk_lock_models(g, cfg, rdm, m, entries, k - 1);
        lemma_spp_models(walk_lock(g, cfg, rdm, entries, k - 1), cfg, rdm, m, entries[k - 1]);
    }
}

/// `package_ok` agrees with its manifest reading when the kind map models
/// the manifest and the declared roots are the manifest's own package.
proof fn lemma_package_ok_models(
    pkg: DocValue,
    cfg: ConfigView,
    rdm: Seq<(String, DepKindsMap)>,
    m: DocValue,
    roots: Seq<RootCrate>,
)
    requires
        rdm_models(rdm, m, cfg),
        manifest_package(m) matches Some(nv) && roots.len() == 1 && roots[0].name@ == nv.0
            && roots[0].ver@ == nv.1,
    ensures
        package_ok(pkg, cfg, rdm, roots) == package_ok_m(pkg, cfg, m),
{
    match pkg_name_ver(pkg) {
        Some(nv) => {
            assert(rdm_get(rdm, nv.0) is Some <==> is_root_name_m(m, nv.0));
            let mnv = manifest_package(m).unwrap();
            assert(roots_match(roots, nv.0, nv.1) <==> (nv.0 == mnv.0 && nv.1 == mnv.1)) by {
                if roots_match(roots, nv.0, nv.1) {
                    let i = choose|i: int|
                        0 <= i < roots.len() && #[trigger] roots[i].name@ == nv.0 && roots[i].ver@
                            == nv.1;
                } else {
                    if nv.0 == mnv.0 && nv.1 == mnv.1 {
                        assert(roots[0].name@ == nv.0 && roots[0].ver@ == nv.1);
                    }
                }
            }
        },
        None => {},
    }
}


/// A kind map with the shape `parse_root_deps` builds models the
/// manifest it was built from.
proof fn lemma_rdm_models_of(rdm: Seq<(String, DepKindsMap)>, m: DocValue, cfg: ConfigView)
    requires
        manifest_package(m) is Some,
        rdm.len() == 1,
        rdm[0].0@ == manifest_package(m).unwrap().0,
        forall|dep: Seq<char>|
            #[trigger] map_kinds(rdm[0].1.entries@, dep) == declared_kinds(m, cfg, dep),
        forall|dep: Seq<char>|
            (#[trigger] dkm_get(rdm[0].1.entries@, dep) is Some) == !declared_kinds(
                m,
                cfg,
                dep,
            ).is_empty(),
    ensures
        rdm_models(rdm, m, cfg),
{
    let root = manifest_package(m).unwrap().0;
    assert(rdm.drop_first() =~= Seq::<(String, DepKindsMap)>::empty());
    assert forall|p: Seq<char>| (#[trigger] rdm_get(rdm, p) is Some) <==> is_root_name_m(
        m,
        p,
    ) by {
        if p != root {
            assert(rdm_get(rdm, p) == rdm_get(rdm.drop_first(), p));
        }
    }
    assert forall|p: Seq<char>, dep: Seq<char>|
        #[trigger] dep_adds_edge(cfg, rdm, p, dep) == dep_adds_edge_m(cfg, m, p, dep) by {
        if p == root {
            assert(rdm_get(rdm, p) == Some(rdm[0].1));
        } else {
            assert(rdm_get(rdm, p) == rdm_get(rdm.drop_first(), p));
        }
    }
    assert forall|p: Seq<char>, dep: Seq<char>|
        #[trigger] dep_call_kinds(rdm, p, dep) == dep_call_kinds_m(cfg, m, p, dep) by {
        if p == root {
            assert(rdm_get(rdm, p) == Some(rdm[0].1));
            match dkm_get(rdm[0].1.entries@, dep) {
                Some(kl) => {
                    assert(map_kinds(rdm[0].1.entries@, dep) == kinds_set(kl));
                },
                None => {
                    assert(declared_kinds(m, cfg, dep).is_empty());
                    assert(declared_kinds(m, cfg, dep) =~= Set::<DepKind>::empty());
                },
            }
        } else {
            assert(rdm_get(rdm, p) == rdm_get(rdm.drop_first(), p));
        }
    }
}

/// The walk's acceptance of a whole lock document agrees with its
/// manifest reading, under a modelling kind map and the manifest's own
/// root list.
proof fn lemma_lock_ok_models(
    lock: DocValue,
    cfg: ConfigView,
    rdm: Seq<(String, DepKindsMap)>,
    m: DocValue,
    roots: Seq<RootCrate>,
)
    requires
        rdm_models(rdm, m, cfg),
        manifest_package(m) matches Some(nv) && roots.len() == 1 && roots[0].name@ == nv.0
            && roots[0].ver@ == nv.1,
    ensures
        lock_entries_ok(lock, cfg, rdm, roots) == lock_entries_ok_m(lock, cfg, m),
{
    let entries = lock_entry_list(lock);
    assert forall|i: int|
        0 <= i < entries.len() implies package_ok(#[trigger] entries[i], cfg, rdm, roots)
        == package_ok_m(entries[i], cfg, m) by {
        lemma_package_ok_models(entries[i], cfg, rdm, m, roots);
    }
    let base: int = match doc_get(lock, ("root")@) {
        Some(_) => 1,
        None => 0,
    };
    if lock_entries_ok(lock, cfg, rdm, roots) {
        assert forall|i: int| 0 <= i < entries.len() implies package_ok_m(
            #[trigger] entries[i],
            cfg,
            m,
        ) by {
            match doc_get(lock, ("root")@) {
                Some(r) => {
                    if i == 0 {
                        assert(entries[0] == r);
                        assert(package_ok(r, cfg, rdm, roots));
                    }
                },
                None => {},
            }
            if i >= base {
                match doc_get(lock, ("package")@) {
                    Some(DocValue::Arr(ps)) => {
                        assert(entries[i] == ps@[i - base]);
                        assert(package_ok(ps@[i - base], cfg, rdm, roots));
                    },
                    _ => {
                        assert(entries.len() == base);
                    },
                }
            }
        }
    }
    if lock_entries_ok_m(lock, cfg, m) {
        match doc_get(lock, ("root")@) {
            Some(r) => {
                assert(entries[0] == r);
                assert(package_ok_m(entries[0], cfg, m));
                assert(package_ok(r, cfg, rdm, roots));
            },
            None => {},
        }
        match doc_get(lock, ("package")@) {
            Some(DocValue::Arr(ps)) => {
                assert forall|i: int| 0 <= i < ps@.len() implies package_ok(
                    #[trigger] ps@[i],
                    cfg,
                    rdm,
                    roots,
                ) by {
                    assert(entries[base + i] == ps@[i]);
                    assert(package_ok_m(entries[base + i], cfg, m));
                }
            },
            _ => {},
        }
        assert(lock_entries_ok(lock, cfg, rdm, roots));
    }
}

impl Project {
    /// Builds the graph of the lock document's resolved packages: one node
    /// per locked package that passes the filter, one edge per declared
    /// dependency, and a fatal consistency error when a root crate the
    /// manifest declares is missing from the lock file.
    #[verifier::loop_isolation(false)]
    pub fn parse_lock_file(
        &self,
        lock: &DocValue,
        root_crates: &Vec<RootCrate>,
        root_deps_map: RootDepsMap,
    ) -> (r: CliResult<DepGraph>)
        ensures
            r matches Ok(g) ==> {
                &&& g.wf()
                &&& g.cfg@ == self.cfg@
                &&& g.root_deps_map == root_deps_map
                &&& g@.order.len() == 0
                &&& forall|t: int|
                    0 <= t < root_crates@.len() ==> view_find(
                        g@.nodes,
                        #[trigger] root_crates@[t].name@,
                        root_crates@[t].ver@,
                    ) is Some
                &&& forall|t: int| 0 <= t < g@.nodes.len() ==> !(#[trigger] g@.nodes[t].duplicate)
            },
            r is Ok <==> lock_entries_ok(*lock, self.cfg@, root_deps_map.entries@, root_crates@)
                && roots_present(
                built_graph(self.cfg@, root_deps_map.entries@, *lock),
                root_crates@,
            ),
            r matches Ok(g) ==> g@ == built_graph(self.cfg@, root_deps_map.entries@, *lock),
            lock_entries_ok(*lock, self.cfg@, root_deps_map.entries@, root_crates@) ==> r is Ok
                || r matches Err(CliError::Toml(_)),
            r matches Err(e) ==> e is Toml || e is Generic,
    {
        let ghost cfgv = self.cfg@;
        let ghost rdmv = root_deps_map.entries@;
        let ghost entries = lock_entry_list(*lock);
        let ghost empty_g = GraphView { nodes: Seq::empty(), edges: Seq::empty(), order: Seq::empty() };
        let mut dg = DepGraph::new(self.cfg.duplicate(), root_deps_map);
        proof {
            assert(dg@ =~= empty_g);
        }
        match lock.get("root") {
            Some(root) => {
                proof {
                    assert(entries[0] == *root);
                }
                match parse_package(&mut dg, root, root_crates) {
                    Ok(()) => {
                        proof {
                            assert(walk_lock(empty_g, cfgv, rdmv, entries, 0) == empty_g);
                            assert(dg@ == walk_lock(empty_g, cfgv, rdmv, entries, 1));
                        }
                    },
                    Err(e) => {
                        proof {
                            assert(!package_ok(*root, cfgv, rdmv, root_crates@));
                        }
                        return Err(e);
                    },
                }
            },
            None => {},
        }
        let ghost base: int = match doc_get(*lock, ("root")@) {
            Some(_) => 1,
            None => 0,
        };
        proof {
            assert(dg@ == walk_lock(empty_g, cfgv, rdmv, entries, base));
        }
        match lock.get("package") {
            Some(DocValue::Arr(pkgs)) => {
                proof {
                    assert(entries =~= entries.take(base) + pkgs@);
                    assert(entries.len() == base + pkgs@.len());
                }
                let mut i: usize = 0;
                while i < pkgs.len()
                    invariant
                        0 <= i <= pkgs@.len(),
                        dg.wf(),
                        dg.cfg@ == cfgv,
                        dg.root_deps_map == root_deps_map,
                        dg@.order.len() == 0,
                        dg@ == walk_lock(empty_g, cfgv, rdmv, entries, base + i),
                        forall|t: int|
                            0 <= t < dg@.nodes.len() ==> !(#[trigger] dg@.nodes[t].duplicate),
                        forall|j: int|
                            0 <= j < i ==> package_ok(
                                #[trigger] pkgs@[j],
                                cfgv,
                                root_deps_map.entries@,
                                root_crates@,
                            ),
                    decreases pkgs@.len() - i,
                {
                    proof {
                        assert(entries[base + i] == pkgs@[i as int]);
                    }
                    match parse_package(&mut dg, &pkgs[i], root_crates) {
                        Ok(()) => {
                            proof {
                                assert(dg@ == walk_lock(empty_g, cfgv, rdmv, entries, base + i + 1));
                            }
                        },
                        Err(e) => {
                            proof {
                                assert(!package_ok(pkgs@[i as int], cfgv, rdmv, root_crates@));
                            }
                            return Err(e);
                        },
                    }
                    i += 1;
                }
            },
            _ => {},
        }
        proof {
            assert(entries.len() == base + match doc_get(*lock, ("package")@) {
                Some(DocValue::Arr(ps)) => ps@.len() as int,
                _ => 0,
            });
            assert(dg@ == built_graph(cfgv, rdmv, *lock));
        }
        let mut t: usize = 0;
        while t < root_crates.len()
            invariant
                0 <= t <= root_crates@.len(),
                forall|j: int|
                    0 <= j < t ==> view_find(
                        dg@.nodes,
                        #[trigger] root_crates@[j].name@,
                        root_crates@[j].ver@,
                    ) is Some,
            decreases root_crates@.len() - t,
        {
            match dg.find(root_crates[t].name.as_str(), root_crates[t].ver.as_str()) {
                Some(_) => {},
                None => {
                    proof {
                        assert(!roots_present(built_graph(cfgv, rdmv, *lock), root_crates@));
                    }
                    let mut msg = String::from_str("Missing 'name': ");
                    msg.append(root_crates[t].name.as_str());
                    msg.append(" and 'version': ");
                    msg.append(root_crates[t].ver.as_str());
                    msg.append(" in lock file");
                    return Err(CliError::Toml(msg));
                },
            }
            t += 1;
        }
        proof {
            assert(roots_present(dg@, root_crates@));
        }
        Ok(dg)
    }

    /// Runs the whole pipeline over the two parsed documents: the built
    /// graph is ordered dependents first, every edge ends with a kind,
    /// every root the manifest declares is present, and names carried by
    /// several versions are marked unless versions are shown everywhere.
    pub fn graph(self, manifest: &DocValue, lock: &DocValue) -> (r: CliResult<DepGraph>)
        ensures
            r matches Ok(g) ==> {
                &&& g.wf()
                &&& manifest_package(*manifest) is Some
                &&& view_find(
                    g@.nodes,
                    manifest_package(*manifest).unwrap().0,
                    manifest_package(*manifest).unwrap().1,
                ) is Some
                &&& crate::sort::topo_order_valid(g@, g@.order)
                &&& forall|e: int|
                    0 <= e < g@.edges.len() ==> !(#[trigger] g@.edges[e].kinds =~= Set::<
                        DepKind,
                    >::empty())
                &&& !self.cfg@.include_vers ==> forall|i: int|
                    0 <= i < g@.nodes.len() ==> #[trigger] g@.nodes[i].duplicate == (exists|j: int|
                        0 <= j < g@.nodes.len() && j != i && #[trigger] g@.nodes[j].name
                            == g@.nodes[i].name && g@.nodes[j].ver != g@.nodes[i].ver)
                &&& self.cfg@.include_vers ==> forall|i: int|
                    0 <= i < g@.nodes.len() ==> !(#[trigger] g@.nodes[i].duplicate)
            },
            r is Ok <==> {
                &&& manifest_package(*manifest) is Some
                &&& lock_entries_ok_m(*lock, self.cfg@, *manifest)
                &&& view_find(
                    built_graph_m(self.cfg@, *manifest, *lock).nodes,
                    manifest_package(*manifest).unwrap().0,
                    manifest_package(*manifest).unwrap().1,
                ) is Some
                &&& !crate::sort::has_cycle(built_graph_m(self.cfg@, *manifest, *lock).edges)
            },
            r matches Ok(g) ==> {
                let b = built_graph_m(self.cfg@, *manifest, *lock);
                &&& g@.nodes.len() == b.nodes.len()
                &&& forall|t: int|
                    0 <= t < b.nodes.len() ==> #[trigger] g@.nodes[t].name == b.nodes[t].name
                        && g@.nodes[t].ver == b.nodes[t].ver
                &&& g@.edges.len() == b.edges.len()
                &&& forall|e: int|
                    0 <= e < b.edges.len() ==> #[trigger] g@.edges[e].parent == b.edges[e].parent
                        && g@.edges[e].child == b.edges[e].child && g@.edges[e].kinds
                        == crate::resolve::filled_kinds(b.edges[e].kinds)
            },
            manifest_package(*manifest) is None ==> r matches Err(CliError::Toml(_)),
            manifest_package(*manifest) is Some && lock_entries_ok_m(*lock, self.cfg@, *manifest)
                && !(view_find(
                built_graph_m(self.cfg@, *manifest, *lock).nodes,
                manifest_package(*manifest).unwrap().0,
                manifest_package(*manifest).unwrap().1,
            ) is Some) ==> r matches Err(CliError::Toml(_)),
            manifest_package(*manifest) is Some && lock_entries_ok_m(*lock, self.cfg@, *manifest)
                && view_find(
                built_graph_m(self.cfg@, *manifest, *lock).nodes,
                manifest_package(*manifest).unwrap().0,
                manifest_package(*manifest).unwrap().1,
            ) is Some && crate::sort::has_cycle(built_graph_m(self.cfg@, *manifest, *lock).edges)
                ==> r matches Err(CliError::Cycle(_)),
            r matches Err(e) ==> e is Toml || e is Generic || e is Cycle,
    {
        let ghost cfgv = self.cfg@;
        let ghost built_m = built_graph_m(self.cfg@, *manifest, *lock);
        let (root_crates, root_deps_map) = match self.parse_root_deps(manifest) {
            Ok(p) => p,
            Err(e) => {
                return Err(e);
            },
        };
        let ghost rdmv = root_deps_map.entries@;
        proof {
            lemma_rdm_models_of(rdmv, *manifest, cfgv);
            lemma_lock_ok_models(*lock, cfgv, rdmv, *manifest, root_crates@);
            let empty_g = GraphView {
                nodes: Seq::empty(),
                edges: Seq::empty(),
                order: Seq::empty(),
            };
            lemma_walk_lock_models(
                empty_g,
                cfgv,
                rdmv,
                *manifest,
                lock_entry_list(*lock),
                lock_entry_list(*lock).len() as int,
            );
            assert(built_graph(cfgv, rdmv, *lock) == built_m);
            let nv = manifest_package(*manifest).unwrap();
            assert(roots_present(built_m, root_crates@) <==> view_find(
                built_m.nodes,
                nv.0,
                nv.1,
            ) is Some) by {
                if view_find(built_m.nodes, nv.0, nv.1) is Some {
                    assert forall|t: int| 0 <= t < root_crates@.len() implies view_find(
                        built_m.nodes,
                        #[trigger] root_crates@[t].name@,
                        root_crates@[t].ver@,
                    ) is Some by {
                        assert(root_crates@[0].name@ == nv.0 && root_crates@[0].ver@ == nv.1);
                    }
                }
            }
        }
        let mut dg = match self.parse_lock_file(lock, &root_crates, root_deps_map) {
            Ok(g) => g,
            Err(e) => {
                return Err(e);
            },
        };
        proof {
            assert(dg@ == built_m);
        }
        let ghost g_built = dg@;
        match dg.topological_sort() {
            Ok(()) => {},
            Err(e) => {
                return Err(e);
            },
        }
        let ghost g_sorted = dg@;
        match dg.set_resolved_kind() {
            Ok(()) => {},
            Err(e) => {
                return Err(e);
            },
        }
        let ghost g_resolved = dg@;
        let show_marks = !self.cfg.include_vers;
        if show_marks {
            dg.show_version_on_duplicates();
        }
        proof {
            assert(g_sorted.edges =~= g_built.edges);
            assert(g_sorted.nodes =~= g_built.nodes);
            assert(dg@.nodes.len() == g_resolved.nodes.len());
            assert forall|t: int|
                0 <= t < dg@.nodes.len() implies #[trigger] dg@.nodes[t].name == g_built.nodes[
                t
            ].name && dg@.nodes[t].ver == g_built.nodes[t].ver by {
                assert(g_resolved.nodes[t].name == g_sorted.nodes[t].name);
                assert(dg@.nodes[t].name == g_resolved.nodes[t].name);
                assert(g_resolved.nodes[t].ver == g_sorted.nodes[t].ver);
                assert(dg@.nodes[t].ver == g_resolved.nodes[t].ver);
            }
            let nv = manifest_package(*manifest).unwrap();
            lemma_view_find_names(g_built.nodes, dg@.nodes, nv.0, nv.1);
            assert(crate::sort::topo_order_valid(dg@, dg@.order)) by {
                assert(dg@.order == g_resolved.order);
                assert(g_resolved.order == g_sorted.order);
                assert forall|i2: int, j2: int|
                    0 <= i2 < dg@.order.len() && 0 <= j2 < dg@.order.len()
                        && crate::sort::edge_between(dg@.edges, dg@.order[i2], dg@.order[j2])
                    implies i2 < j2 by {
                    let e = choose|e: int|
                        0 <= e < dg@.edges.len() && #[trigger] dg@.edges[e].parent == dg@.order[i2]
                            && dg@.edges[e].child == dg@.order[j2];
                    assert(dg@.edges[e].parent == g_resolved.edges[e].parent);
                    assert(g_resolved.edges[e].parent == g_sorted.edges[e].parent);
                    assert(dg@.edges[e].child == g_resolved.edges[e].child);
                    assert(g_resolved.edges[e].child == g_sorted.edges[e].child);
                    assert(crate::sort::edge_between(
                        g_built.edges,
                        g_sorted.order[i2],
                        g_sorted.order[j2],
                    ));
                }
            }
            assert forall|e: int|
                0 <= e < dg@.edges.len() implies !(#[trigger] dg@.edges[e].kinds =~= Set::<
                DepKind,
            >::empty()) by {
                assert(dg@.edges[e].kinds == g_resolved.edges[e].kinds);
            }
            assert forall|t: int|
                0 <= t < g_resolved.nodes.len() implies !(#[trigger] g_resolved.nodes[
                t
            ].duplicate) by {
                assert(g_resolved.nodes[t].duplicate == g_sorted.nodes[t].duplicate);
                assert(g_built.nodes[t].duplicate == false);
            }
            if show_marks {
                assert forall|i: int|
                    0 <= i < dg@.nodes.len() implies #[trigger] dg@.nodes[i].duplicate == (exists|
                    j: int,
                |
                    0 <= j < dg@.nodes.len() && j != i && #[trigger] dg@.nodes[j].name
                        == dg@.nodes[i].name && dg@.nodes[j].ver != dg@.nodes[i].ver) by {
                    if dg@.nodes[i].duplicate {
                        let j = choose|j: int|
                            0 <= j < g_resolved.nodes.len() && j != i
                                && #[trigger] g_resolved.nodes[j].name == g_resolved.nodes[i].name
                                && g_resolved.nodes[j].ver != g_resolved.nodes[i].ver;
                        assert(dg@.nodes[j].name == g_resolved.nodes[j].name);
                        assert(dg@.nodes[i].name == g_resolved.nodes[i].name);
                        assert(dg@.nodes[j].ver == g_resolved.nodes[j].ver);
                        assert(dg@.nodes[i].ver == g_resolved.nodes[i].ver);
                        assert(dg@.nodes[j].name == dg@.nodes[i].name && dg@.nodes[j].ver
                            != dg@.nodes[i].ver);
                    } else {
                        if exists|j: int|
                            0 <= j < dg@.nodes.len() && j != i && #[trigger] dg@.nodes[j].name
                                == dg@.nodes[i].name && dg@.nodes[j].ver != dg@.nodes[i].ver {
                            let j = choose|j: int|
                                0 <= j < dg@.nodes.len() && j != i && #[trigger] dg@.nodes[j].name
                                    == dg@.nodes[i].name && dg@.nodes[j].ver != dg@.nodes[i].ver;
                            assert(g_resolved.nodes[j].name == g_resolved.nodes[i].name
                                && g_resolved.nodes[j].ver != g_resolved.nodes[i].ver);
                            assert(dg@.nodes[i].duplicate);
                        }
                    }
                }
            } else {
                assert forall|i: int|
                    0 <= i < dg@.nodes.len() implies !(#[trigger] dg@.nodes[i].duplicate) by {}
            }
        }

        Ok(dg)
    }
}


/// The dependencies-table part of the declared kinds.
pub open spec fn deps_table_kinds_of(m: DocValue, cfg: ConfigView, dep: Seq<char>) -> Set<
    DepKind,
> {
    match doc_get(m, ("dependencies")@) {
        Some(DocValue::Table(es)) => deps_table_kinds(es@, cfg, dep),
        _ => Set::empty(),
    }
}


} // verus!
