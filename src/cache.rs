//! Results of past invocations, kept until a dependency drifts.
use vstd::prelude::*;

verus! {

/// What a path looked like when it was last examined.
#[derive(Clone, Copy, Debug, PartialEq, Eq, Structural)]
pub enum Fingerprint {
    /// Nothing was found at the path.
    Absent,
    /// The path exists: its size, its modification time in nanoseconds since
    /// the epoch, and a digest of its content.
    Present { size: u64, modified: u64, digest: u64 },
}

/// The key of a cached result: the program, its arguments in order, and the
/// value of each environment variable that was declared relevant (`None` when
/// it was unset).
pub struct CommandIdentity {
    pub program: String,
    pub args: Vec<String>,
    pub env: Vec<(String, Option<String>)>,
}

/// The mathematical value of a [`CommandIdentity`].
pub ghost struct IdentityModel {
    pub program: Seq<char>,
    pub args: Seq<Seq<char>>,
    pub env: Seq<(Seq<char>, Option<Seq<char>>)>,
}

pub open spec fn binding_model(b: (String, Option<String>)) -> (Seq<char>, Option<Seq<char>>) {
    (
        b.0@,
        match b.1 {
            Some(v) => Some(v@),
            None => None,
        },
    )
}

impl View for CommandIdentity {
    type V = IdentityModel;

    open spec fn view(&self) -> IdentityModel {
        IdentityModel {
            program: self.program@,
            args: self.args.deep_view(),
            env: self.env@.map_values(|b: (String, Option<String>)| binding_model(b)),
        }
    }
}

/// What an invocation printed and how it ended.
pub struct CachedOutput {
    pub stdout: Vec<u8>,
    pub stderr: Vec<u8>,
    pub status: i32,
}

/// The mathematical value of a [`CachedOutput`].
pub ghost struct OutputModel {
    pub stdout: Seq<u8>,
    pub stderr: Seq<u8>,
    pub status: i32,
}

impl View for CachedOutput {
    type V = OutputModel;

    open spec fn view(&self) -> OutputModel {
        OutputModel { stdout: self.stdout@, stderr: self.stderr@, status: self.status }
    }
}

/// A stored result and the fingerprint of each path it depended on.
pub ghost struct EntryModel {
    pub output: OutputModel,
    pub dependencies: Seq<(Seq<char>, Fingerprint)>,
}

/// `current` gives, in order, the same fingerprint as each stored dependency.
pub open spec fn still_valid(e: EntryModel, current: Seq<Fingerprint>) -> bool {
    current.len() == e.dependencies.len() && forall|i: int|
        0 <= i < current.len() ==> current[i] == #[trigger] e.dependencies[i].1
}

/// What a lookup returns: the stored output, only while every dependency
/// fingerprints as it did when stored.
pub open spec fn validated(
    m: Map<IdentityModel, EntryModel>,
    id: IdentityModel,
    current: Seq<Fingerprint>,
) -> Option<OutputModel> {
    if m.contains_key(id) && still_valid(m[id], current) {
        Some(m[id].output)
    } else {
        None
    }
}

/// The entry that storing `output` with these dependencies makes.
pub open spec fn entry_of(
    output: OutputModel,
    paths: Seq<Seq<char>>,
    fingerprints: Seq<Fingerprint>,
) -> EntryModel {
    EntryModel {
        output,
        dependencies: Seq::new(paths.len(), |i: int| (paths[i], fingerprints[i])),
    }
}

struct CacheEntry {
    identity: CommandIdentity,
    output: CachedOutput,
    paths: Vec<String>,
    fingerprints: Vec<Fingerprint>,
}

impl CacheEntry {
    spec fn model(&self) -> EntryModel {
        entry_of(self.output@, self.paths.deep_view(), self.fingerprints@)
    }
}

/// Stored results, at most one for each command identity.
pub struct ResultCache {
    entries: Vec<CacheEntry>,
}

fn same_strings(a: &Vec<String>, b: &Vec<String>) -> (r: bool)
    ensures
        r == (a.deep_view() == b.deep_view()),
{
    if a.len() != b.len() {
        assert(a.deep_view().len() != b.deep_view().len());
        return false;
    }
    let mut i: usize = 0;
    while i < a.len()
        invariant
            a.len() == b.len(),
            i <= a.len(),
            forall|j: int| 0 <= j < i ==> a@[j]@ == b@[j]@,
        decreases a.len() - i,
    {
        if a[i] != b[i] {
            assert(a.deep_view()[i as int] != b.deep_view()[i as int]);
            return false;
        }
        i = i + 1;
    }
    assert(a.deep_view() =~= b.deep_view());
    true
}

fn same_env(a: &Vec<(String, Option<String>)>, b: &Vec<(String, Option<String>)>) -> (r: bool)
    ensures
        r == (a@.map_values(|x: (String, Option<String>)| binding_model(x)) == b@.map_values(
            |x: (String, Option<String>)| binding_model(x),
        )),
{
    let ghost ma = a@.map_values(|x: (String, Option<String>)| binding_model(x));
    let ghost mb = b@.map_values(|x: (String, Option<String>)| binding_model(x));
    if a.len() != b.len() {
        assert(ma.len() != mb.len());
        return false;
    }
    let mut i: usize = 0;
    while i < a.len()
        invariant
            a.len() == b.len(),
            i <= a.len(),
            ma == a@.map_values(|x: (String, Option<String>)| binding_model(x)),
            mb == b@.map_values(|x: (String, Option<String>)| binding_model(x)),
            forall|j: int| 0 <= j < i ==> ma[j] == mb[j],
        decreases a.len() - i,
    {
        let same_value = match (&a[i].1, &b[i].1) {
            (Some(x), Some(y)) => *x == *y,
            (None, None) => true,
            _ => false,
        };
        if a[i].0 != b[i].0 || !same_value {
            assert(ma[i as int] != mb[i as int]);
            return false;
        }
        i = i + 1;
    }
    assert(ma =~= mb);
    true
}

impl CommandIdentity {
    /// Whether two identities name the same invocation.
    pub fn same_as(&self, o: &CommandIdentity) -> (r: bool)
        ensures
            r == (self@ == o@),
    {
        self.program == o.program && same_strings(&self.args, &o.args) && same_env(
            &self.env,
            &o.env,
        )
    }
}

fn copy_bytes(v: &Vec<u8>) -> (r: Vec<u8>)
    ensures
        r@ == v@,
{
    let mut r: Vec<u8> = Vec::new();
    let mut i: usize = 0;
    while i < v.len()
        invariant
            i <= v.len(),
            r@ == v@.subrange(0, i as int),
        decreases v.len() - i,
    {
        r.push(v[i]);
        i = i + 1;
        assert(r@ =~= v@.subrange(0, i as int));
    }
    assert(r@ =~= v@);
    r
}

impl CachedOutput {
    /// A copy of this output.
    pub fn duplicate(&self) -> (r: CachedOutput)
        ensures
            r@ == self@,
    {
        CachedOutput {
            stdout: copy_bytes(&self.stdout),
            stderr: copy_bytes(&self.stderr),
            status: self.status,
        }
    }
}

impl View for ResultCache {
    type V = Map<IdentityModel, EntryModel>;

    closed spec fn view(&self) -> Map<IdentityModel, EntryModel> {
        Map::new(
            |id: IdentityModel| exists|i: int| 0 <= i < self.entries.len() && self.entries@[i].identity@ == id,
            |id: IdentityModel|
                self.entries@[choose|i: int| 0 <= i < self.entries.len() && self.entries@[i].identity@ == id].model(),
        )
    }
}

impl ResultCache {
    /// No two entries share an identity, and each entry has one fingerprint
    /// for each path.
    pub closed spec fn wf(&self) -> bool {
        &&& forall|i: int, j: int|
            0 <= i < j < self.entries.len() ==> self.entries@[i].identity@
                != self.entries@[j].identity@
        &&& forall|i: int|
            0 <= i < self.entries.len() ==> self.entries@[i].paths.len()
                == self.entries@[i].fingerprints.len()
    }

    /// A cache that holds nothing.
    pub fn new() -> (r: ResultCache)
        ensures
            r.wf(),
            r@ == Map::<IdentityModel, EntryModel>::empty(),
    {
        let r = ResultCache { entries: Vec::new() };
        assert(r@ =~= Map::<IdentityModel, EntryModel>::empty());
        r
    }

    /// Where the entry for `id` stands, if there is one.
    fn find(&self, id: &CommandIdentity) -> (r: Option<usize>)
        requires
            self.wf(),
        ensures
            match r {
                Some(i) => i < self.entries.len() && self.entries@[i as int].identity@ == id@
                    && self@.contains_key(id@) && self@[id@] == self.entries@[i as int].model(),
                None => !self@.contains_key(id@),
            },
    {
        let mut i: usize = 0;
        while i < self.entries.len()
            invariant
                self.wf(),
                i <= self.entries.len(),
                forall|j: int| 0 <= j < i ==> self.entries@[j].identity@ != id@,
            decreases self.entries.len() - i,
        {
            if self.entries[i].identity.same_as(id) {
                assert(self@.contains_key(id@));
                let ghost k = choose|k: int|
                    0 <= k < self.entries.len() && self.entries@[k].identity@ == id@;
                assert(k == i as int);
                return Some(i);
            }
            i = i + 1;
        }
        None
    }

    /// The paths whose fingerprints decide whether the entry for `id` is still
    /// valid, in the order [`ResultCache::lookup_and_validate`] expects them.
    pub fn dependency_paths(&self, id: &CommandIdentity) -> (r: Option<Vec<String>>)
        requires
            self.wf(),
        ensures
            match r {
                Some(paths) => self@.contains_key(id@) && paths.deep_view() == self@[id@].dependencies.map_values(
                    |d: (Seq<char>, Fingerprint)| d.0,
                ),
                None => !self@.contains_key(id@),
            },
    {
        match self.find(id) {
            Some(i) => {
                let stored = &self.entries[i].paths;
                let mut paths: Vec<String> = Vec::new();
                let mut j: usize = 0;
                while j < stored.len()
                    invariant
                        j <= stored.len(),
                        paths.deep_view() == stored.deep_view().subrange(0, j as int),
                    decreases stored.len() - j,
                {
                    let ghost prev = paths.deep_view();
                    let p = stored[j].clone();
                    assert(p@ == stored.deep_view()[j as int]);
                    paths.push(p);
                    assert(paths.deep_view() =~= prev.push(p@));
                    j = j + 1;
                    assert(paths.deep_view() =~= stored.deep_view().subrange(0, j as int));
                }
                assert(paths.deep_view() =~= self@[id@].dependencies.map_values(
                    |d: (Seq<char>, Fingerprint)| d.0,
                ));
                Some(paths)
            },
            None => None,
        }
    }

    /// The stored output for `id`, only where `current`, the fingerprints just
    /// taken of the dependency paths in order, equals what was stored.
    pub fn lookup_and_validate(&self, id: &CommandIdentity, current: &Vec<Fingerprint>) -> (r:
        Option<CachedOutput>)
        requires
            self.wf(),
        ensures
            match validated(self@, id@, current@) {
                Some(out) => r is Some && r->0@ == out,
                None => r is None,
            },
    {
        match self.find(id) {
            Some(i) => {
                let entry = &self.entries[i];
                assert(entry.paths.len() == entry.fingerprints.len());
                assert(entry.model().dependencies.len() == entry.fingerprints.len());
                if entry.fingerprints.len() != current.len() {
                    return None;
                }
                let mut j: usize = 0;
                while j < current.len()
                    invariant
                        entry == &self.entries@[i as int],
                        self@.contains_key(id@),
                        self@[id@] == entry.model(),
                        entry.fingerprints.len() == current.len(),
                        entry.paths.len() == entry.fingerprints.len(),
                        j <= current.len(),
                        forall|k: int| 0 <= k < j ==> current@[k] == entry.fingerprints@[k],
                    decreases current.len() - j,
                {
                    if current[j] != entry.fingerprints[j] {
                        assert(entry.model().dependencies[j as int].1 == entry.fingerprints@[j as int]);
                        return None;
                    }
                    j = j + 1;
                }
                assert(still_valid(entry.model(), current@));
                Some(entry.output.duplicate())
            },
            None => None,
        }
    }

    /// Stores `output` for `id` with the fingerprint of each dependency path,
    /// replacing in full whatever was stored for `id` before.
    pub fn store(
        &mut self,
        id: CommandIdentity,
        output: CachedOutput,
        paths: Vec<String>,
        fingerprints: Vec<Fingerprint>,
    )
        requires
            old(self).wf(),
            paths.len() == fingerprints.len(),
        ensures
            final(self).wf(),
            final(self)@ == old(self)@.insert(
                id@,
                entry_of(output@, paths.deep_view(), fingerprints@),
            ),
    {
        let ghost before = self@;
        let ghost idm = id@;
        let entry = CacheEntry { identity: id, output, paths, fingerprints };
        let ghost em = entry.model();
        match self.find(&entry.identity) {
            Some(i) => {
                let ghost old_entries = self.entries@;
                self.entries.set(i, entry);
                assert forall|k: int| 0 <= k < self.entries.len() && k != i implies self.entries@[k]
                    == old_entries[k] by {}
                assert(self@ =~= before.insert(idm, em)) by {
                    assert forall|x: IdentityModel| #[trigger] self@.contains_key(x) implies before.insert(idm, em).contains_key(x) by {
                        let k = choose|k: int| 0 <= k < self.entries.len() && self.entries@[k].identity@ == x;
                        if k != i {
                            assert(old_entries[k].identity@ == x);
                        }
                    }
                    assert forall|x: IdentityModel| #[trigger] before.insert(idm, em).contains_key(x) implies self@.contains_key(x) by {
                        if x != idm {
                            let k = choose|k: int| 0 <= k < old_entries.len() && old_entries[k].identity@ == x;
                            assert(self.entries@[k].identity@ == x);
                        } else {
                            assert(self.entries@[i as int].identity@ == x);
                        }
                    }
                    assert forall|x: IdentityModel| #[trigger] self@.contains_key(x) implies self@[x] == before.insert(idm, em)[x] by {
                        let k = choose|k: int| 0 <= k < self.entries.len() && self.entries@[k].identity@ == x;
                        if x == idm {
                            assert(k == i as int);
                        } else {
                            let k0 = choose|k0: int| 0 <= k0 < old_entries.len() && old_entries[k0].identity@ == x;
                            assert(k0 == k);
                        }
                    }
                }
            },
            None => {
                let ghost old_entries = self.entries@;
                self.entries.push(entry);
                assert(self@ =~= before.insert(idm, em)) by {
                    let n = old_entries.len() as int;
                    assert forall|x: IdentityModel| #[trigger] self@.contains_key(x) implies before.insert(idm, em).contains_key(x) by {
                        let k = choose|k: int| 0 <= k < self.entries.len() && self.entries@[k].identity@ == x;
                        if k != n {
                            assert(old_entries[k].identity@ == x);
                        }
                    }
                    assert forall|x: IdentityModel| #[trigger] before.insert(idm, em).contains_key(x) implies self@.contains_key(x) by {
                        if x != idm {
                            let k = choose|k: int| 0 <= k < old_entries.len() && old_entries[k].identity@ == x;
                            assert(self.entries@[k].identity@ == x);
                        } else {
                            assert(self.entries@[n].identity@ == x);
                        }
                    }
                    assert forall|x: IdentityModel| #[trigger] self@.contains_key(x) implies self@[x] == before.insert(idm, em)[x] by {
                        let k = choose|k: int| 0 <= k < self.entries.len() && self.entries@[k].identity@ == x;
                        if x == idm {
                            assert(k == n);
                        } else {
                            let k0 = choose|k0: int| 0 <= k0 < old_entries.len() && old_entries[k0].identity@ == x;
                            assert(k0 == k);
                        }
                    }
                }
            },
        }
    }
}

/// An entry looked up right after it was stored, with every dependency
/// fingerprinting as it did then, gives back the stored output unchanged.
pub proof fn lemma_store_then_lookup(
    m: Map<IdentityModel, EntryModel>,
    id: IdentityModel,
    output: OutputModel,
    paths: Seq<Seq<char>>,
    fingerprints: Seq<Fingerprint>,
)
    requires
        paths.len() == fingerprints.len(),
    ensures
        validated(m.insert(id, entry_of(output, paths, fingerprints)), id, fingerprints)
            == Some(output),
{
}

/// Once one dependency fingerprints otherwise than it did when stored, the
/// lookup gives nothing.
pub proof fn lemma_drift_invalidates(
    m: Map<IdentityModel, EntryModel>,
    id: IdentityModel,
    output: OutputModel,
    paths: Seq<Seq<char>>,
    fingerprints: Seq<Fingerprint>,
    current: Seq<Fingerprint>,
    i: int,
)
    requires
        paths.len() == fingerprints.len(),
        0 <= i < fingerprints.len(),
        current[i] != fingerprints[i],
    ensures
        validated(m.insert(id, entry_of(output, paths, fingerprints)), id, current) is None,
{
    let e = entry_of(output, paths, fingerprints);
    assert(e.dependencies[i].1 == fingerprints[i]);
}

/// A dependency that existed when stored and is absent now makes the lookup
/// give nothing.
pub proof fn lemma_absence_invalidates(
    m: Map<IdentityModel, EntryModel>,
    id: IdentityModel,
    output: OutputModel,
    paths: Seq<Seq<char>>,
    fingerprints: Seq<Fingerprint>,
    current: Seq<Fingerprint>,
    i: int,
)
    requires
        paths.len() == fingerprints.len(),
        0 <= i < fingerprints.len(),
        fingerprints[i] is Present,
        current[i] is Absent,
    ensures
        validated(m.insert(id, entry_of(output, paths, fingerprints)), id, current) is None,
{
    lemma_drift_invalidates(m, id, output, paths, fingerprints, current, i);
}

} // verus!
