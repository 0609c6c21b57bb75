use vstd::prelude::*;
use crate::command_validator::strings_view;
use vstd::string::StringExecFns;

verus! {

/// A unit of configuration: packages, commands and files, with the modules it
/// needs first and those it cannot stand beside.
#[derive(Debug, Clone)]
pub struct Module {
    /// Slash-separated identifier, unique in a registry (such as `core/base-system`).
    pub id: String,
    pub name: String,
    pub description: String,
    pub category: String,
    pub version: String,
    /// Modules to apply before this one, in the order to visit them.
    pub dependencies: Vec<String>,
    /// Modules that may not be applied together with this one.
    pub conflicts: Vec<String>,
    pub packages: Vec<String>,
    pub aur_packages: Vec<String>,
    /// Commands to run, as command text for the validator.
    pub commands: Vec<String>,
    /// Target path and content of each file to write.
    pub files: Vec<(String, String)>,
}

/// No two modules of `reg` share an id.
pub open spec fn ids_distinct(reg: Seq<Module>) -> bool {
    forall|i: int, j: int|
        0 <= i < reg.len() && 0 <= j < reg.len() && #[trigger] reg[i].id@ == #[trigger] reg[j].id@
            ==> i == j
}

/// The first position, from `i` on, of a module of `reg` with id `id`.
pub open spec fn find(reg: Seq<Module>, id: Seq<char>, i: int) -> Option<int>
    decreases reg.len() - i,
{
    if i < 0 || i >= reg.len() {
        None
    } else if reg[i].id@ == id {
        Some(i)
    } else {
        find(reg, id, i + 1)
    }
}

/// The module of `reg` with id `id`.
pub open spec fn lookup(reg: Seq<Module>, id: Seq<char>) -> Option<Module> {
    match find(reg, id, 0) {
        Some(k) => Some(reg[k]),
        None => None,
    }
}

proof fn lemma_find_is_match(reg: Seq<Module>, id: Seq<char>, i: int)
    requires
        0 <= i,
    ensures
        find(reg, id, i) matches Some(k) ==> i <= k < reg.len() && reg[k].id@ == id,
        find(reg, id, i) is None ==> forall|k: int| i <= k < reg.len() ==> reg[k].id@ != id,
    decreases reg.len() - i,
{
    if i < reg.len() && reg[i].id@ != id {
        lemma_find_is_match(reg, id, i + 1);
    }
}

proof fn lemma_find_distinct(reg: Seq<Module>, k: int)
    requires
        ids_distinct(reg),
        0 <= k < reg.len(),
    ensures
        find(reg, reg[k].id@, 0) == Some(k),
{
    lemma_find_is_match(reg, reg[k].id@, 0);
    if find(reg, reg[k].id@, 0) is None {
        assert(reg[k].id@ != reg[k].id@);
    }
}

/// Name for the lowercase mapping that `str::to_lowercase` applies.
pub uninterp spec fn lowercase_of(s: Seq<char>) -> Seq<char>;

/// Relies on `str::to_lowercase`: the Unicode lowercase form of `s`, which depends
/// on the text alone; the empty string stays empty.
#[verifier::external_body]
fn to_lowercase(s: &str) -> (r: String)
    ensures
        r@ == lowercase_of(s@),
        s@.len() == 0 ==> r@.len() == 0,
{
    s.to_lowercase()
}

/// `needle` occurs in `haystack` as a contiguous run.
pub open spec fn has_substring(haystack: Seq<char>, needle: Seq<char>) -> bool {
    exists|i: int|
        0 <= i <= haystack.len() - needle.len() && #[trigger] haystack.subrange(i, i + needle.len())
            == needle
}

/// Whether module `m` answers a query whose lowercase form is `q`: its name,
/// description or id contains it, ignoring case.
pub open spec fn module_matches(m: Module, q: Seq<char>) -> bool {
    has_substring(lowercase_of(m.name@), q) || has_substring(lowercase_of(m.description@), q)
        || has_substring(lowercase_of(m.id@), q)
}

/// The modules of `reg` that answer the lowercase query `q`, in registry order.
pub open spec fn search_spec(reg: Seq<Module>, q: Seq<char>) -> Seq<Module>
    decreases reg.len(),
{
    if reg.len() == 0 {
        Seq::empty()
    } else if module_matches(reg.last(), q) {
        search_spec(reg.drop_last(), q).push(reg.last())
    } else {
        search_spec(reg.drop_last(), q)
    }
}

pub(crate) fn chars_of(s: &str) -> (r: Vec<char>)
    ensures
        r@ == s@,
{
    let mut r: Vec<char> = Vec::new();
    for c in it: s.chars()
        invariant
            it.seq() == s@,
            r@ == s@.take(it.index()),
    {
        assert(c == s@[it.index()]);
        r.push(c);
        assert(r@ =~= s@.take(it.index() + 1));
    }
    assert(s@.take(s@.len() as int) =~= s@);
    r
}

/// Whether `needle` occurs in `haystack`.
pub fn contains_text(haystack: &str, needle: &str) -> (r: bool)
    ensures
        r == has_substring(haystack@, needle@),
{
    let h = chars_of(haystack);
    let n = chars_of(needle);
    let hl = h.len();
    let nl = n.len();
    if nl > hl {
        return false;
    }
    let mut i: usize = 0;
    while i <= hl - nl
        invariant
            h@ == haystack@,
            n@ == needle@,
            hl == h@.len(),
            nl == n@.len(),
            nl <= hl,
            i <= hl - nl + 1,
            forall|k: int| 0 <= k < i ==> #[trigger] h@.subrange(k, k + nl) != n@,
        decreases hl - nl + 1 - i,
    {
        let mut j: usize = 0;
        while j < nl && h[i + j] == n[j]
            invariant
                h@ == haystack@,
                n@ == needle@,
                hl == h@.len(),
                nl == n@.len(),
                i + nl <= hl,
                j <= nl,
                forall|t: int| 0 <= t < j ==> h@[i + t] == n@[t],
            decreases nl - j,
        {
            j += 1;
        }
        if j == nl {
            assert(h@.subrange(i as int, i + nl) =~= n@);
            return true;
        }
        assert(h@.subrange(i as int, i + nl)[j as int] != n@[j as int]);
        i += 1;
    }
    false
}

/// Whether a module whose lowercase name, description and id are `name`,
/// `description` and `id` answers the lowercase query `query`.
pub fn matches_folded(name: &str, description: &str, id: &str, query: &str) -> (r: bool)
    ensures
        r == (has_substring(name@, query@) || has_substring(description@, query@) || has_substring(
            id@,
            query@,
        )),
{
    contains_text(name, query) || contains_text(description, query) || contains_text(id, query)
}

proof fn lemma_search_within(reg: Seq<Module>, q: Seq<char>)
    requires
        ids_distinct(reg),
    ensures
        ids_distinct(search_spec(reg, q)),
        forall|i: int|
            0 <= i < search_spec(reg, q).len() ==> exists|k: int|
                0 <= k < reg.len() && #[trigger] search_spec(reg, q)[i] == reg[k],
    decreases reg.len(),
{
    if reg.len() > 0 {
        let front = reg.drop_last();
        assert forall|i: int, j: int|
            0 <= i < front.len() && 0 <= j < front.len() && #[trigger] front[i].id@ == #[trigger] front[j].id@
                implies i == j by {
            assert(front[i] == reg[i]);
            assert(front[j] == reg[j]);
        }
        lemma_search_within(front, q);
        let rest = search_spec(front, q);
        let res = search_spec(reg, q);
        if module_matches(reg.last(), q) {
            assert(res == rest.push(reg.last()));
            assert forall|i: int| 0 <= i < res.len() implies exists|k: int|
                0 <= k < reg.len() && #[trigger] res[i] == reg[k] by {
                if i < rest.len() {
                    let k = choose|k: int| 0 <= k < front.len() && #[trigger] rest[i] == front[k];
                    assert(res[i] == reg[k]);
                } else {
                    assert(res[i] == reg[reg.len() - 1]);
                }
            }
            assert forall|i: int, j: int|
                0 <= i < res.len() && 0 <= j < res.len() && #[trigger] res[i].id@ == #[trigger] res[j].id@
                    implies i == j by {
                if i < rest.len() && j == rest.len() {
                    let k = choose|k: int| 0 <= k < front.len() && #[trigger] rest[i] == front[k];
                    assert(reg[k].id@ == reg[reg.len() - 1].id@);
                } else if j < rest.len() && i == rest.len() {
                    let k = choose|k: int| 0 <= k < front.len() && #[trigger] rest[j] == front[k];
                    assert(reg[k].id@ == reg[reg.len() - 1].id@);
                } else if i < rest.len() && j < rest.len() {
                    assert(rest[i].id@ == rest[j].id@);
                }
            }
        } else {
            assert forall|i: int| 0 <= i < res.len() implies exists|k: int|
                0 <= k < reg.len() && #[trigger] res[i] == reg[k] by {
                let k = choose|k: int| 0 <= k < front.len() && #[trigger] rest[i] == front[k];
                assert(res[i] == reg[k]);
            }
        }
    }
}

/// The empty query matches every module: each field contains the empty text.
pub proof fn lemma_empty_query_matches_all(reg: Seq<Module>)
    ensures
        search_spec(reg, Seq::empty()) == reg,
    decreases reg.len(),
{
    if reg.len() > 0 {
        lemma_empty_query_matches_all(reg.drop_last());
        let h = lowercase_of(reg.last().name@);
        let e = Seq::<char>::empty();
        assert(h.subrange(0int, 0int + e.len()) =~= e);
        assert(has_substring(h, e));
        assert(reg.drop_last().push(reg.last()) =~= reg);
    }
}

/// The set of known modules, read by the resolver.
pub struct ModuleRegistry {
    modules: Vec<Module>,
    module_dir: String,
}

impl View for ModuleRegistry {
    type V = Seq<Module>;

    closed spec fn view(&self) -> Seq<Module> {
        self.modules@
    }
}

impl ModuleRegistry {
    #[verifier::type_invariant]
    spec fn ids_unique(&self) -> bool {
        ids_distinct(self.modules@)
    }

    /// The directory that module definitions are loaded from.
    pub closed spec fn spec_module_dir(&self) -> Seq<char> {
        self.module_dir@
    }

    /// An empty registry for the definitions under `module_dir`.
    pub fn new(module_dir: &str) -> (r: Self)
        ensures
            r@ == Seq::<Module>::empty(),
            r.spec_module_dir() == module_dir@,
            ids_distinct(r@),
    {
        ModuleRegistry { modules: Vec::new(), module_dir: module_dir.to_owned() }
    }

    /// The directory that module definitions are loaded from.
    pub fn module_dir(&self) -> (r: &str)
        ensures
            r@ == self.spec_module_dir(),
    {
        self.module_dir.as_str()
    }

    /// The module with id `id`.
    pub fn get(&self, id: &str) -> (r: Option<&Module>)
        ensures
            match lookup(self@, id@) {
                Some(m) => r is Some && *r->Some_0 == m,
                None => r is None,
            },
            r matches Some(m) ==> m.id@ == id@,
            ids_distinct(self@),
    {
        proof {
            use_type_invariant(self);
            lemma_find_is_match(self@, id@, 0);
        }
        let key = id.to_owned();
        match self.position(&key) {
            Some(k) => {
                Some(&self.modules[k])
            },
            None => None,
        }
    }

    /// Every module of the registry.
    pub fn list(&self) -> (r: Vec<&Module>)
        ensures
            r@.len() == self@.len(),
            forall|i: int| 0 <= i < r@.len() ==> *r@[i] == self@[i],
            ids_distinct(self@),
    {
        proof {
            use_type_invariant(self);
        }
        let mut r: Vec<&Module> = Vec::new();
        let n = self.modules.len();
        for i in 0..n
            invariant
                n == self.modules.len(),
                r@.len() == i,
                forall|j: int| 0 <= j < i ==> *r@[j] == self@[j],
        {
            r.push(&self.modules[i]);
        }
        r
    }

    /// Adds `module`; a module already registered under its id is replaced.
    pub fn insert(&mut self, module: Module)
        ensures
            final(self)@ == match find(old(self)@, module.id@, 0) {
                Some(k) => old(self)@.update(k, module),
                None => old(self)@.push(module),
            },
            final(self).spec_module_dir() == old(self).spec_module_dir(),
            ids_distinct(final(self)@),
    {
        let key = module.id.clone();
        let found = self.position(&key);
        let mut taken = ModuleRegistry { modules: Vec::new(), module_dir: String::new() };
        std::mem::swap(self, &mut taken);
        proof {
            use_type_invariant(&taken);
            lemma_find_is_match(taken@, module.id@, 0);
        }
        let ModuleRegistry { mut modules, module_dir } = taken;
        match found {
            Some(k) => {
                let ghost before = modules@;
                modules.set(k, module);
                proof {
                    assert forall|i: int, j: int|
                        0 <= i < modules@.len() && 0 <= j < modules@.len() && #[trigger] modules@[i].id@
                            == #[trigger] modules@[j].id@ implies i == j by {
                        assert(modules@[i].id@ == before[i].id@);
                        assert(modules@[j].id@ == before[j].id@);
                    }
                }
            },
            None => {
                let ghost before = modules@;
                modules.push(module);
                proof {
                    assert forall|i: int, j: int|
                        0 <= i < modules@.len() && 0 <= j < modules@.len() && #[trigger] modules@[i].id@
                            == #[trigger] modules@[j].id@ implies i == j by {
                        if i < before.len() {
                            assert(modules@[i] == before[i]);
                            assert(before[i].id@ != key@);
                        }
                        if j < before.len() {
                            assert(modules@[j] == before[j]);
                            assert(before[j].id@ != key@);
                        }
                    }
                }
            },
        }
        *self = ModuleRegistry { modules, module_dir };
    }

    /// The modules whose name, description or id contains `query`, ignoring case.
    pub fn search(&self, query: &str) -> (r: Vec<&Module>)
        ensures
            r@.len() == search_spec(self@, lowercase_of(query@)).len(),
            forall|i: int| 0 <= i < r@.len() ==> *r@[i] == search_spec(self@, lowercase_of(query@))[i],
            forall|i: int, j: int|
                0 <= i < r@.len() && 0 <= j < r@.len() && (*r@[i]).id@ == (*r@[j]).id@ ==> i == j,
            forall|i: int| 0 <= i < r@.len() ==> self@.contains(*r@[i]),
            query@.len() == 0 ==> r@.len() == self@.len() && forall|i: int|
                0 <= i < r@.len() ==> *r@[i] == self@[i],
    {
        proof {
            use_type_invariant(self);
            lemma_search_within(self@, lowercase_of(query@));
        }
        let q = to_lowercase(query);
        proof {
            if query@.len() == 0 {
                assert(q@ =~= Seq::<char>::empty());
                lemma_empty_query_matches_all(self@);
            }
        }
        let ghost reg = self@;
        let mut r: Vec<&Module> = Vec::new();
        let n = self.modules.len();
        for i in 0..n
            invariant
                n == reg.len(),
                reg == self@,
                q@ == lowercase_of(query@),
                r@.len() == search_spec(reg.take(i as int), q@).len(),
                forall|j: int| 0 <= j < r@.len() ==> *r@[j] == search_spec(reg.take(i as int), q@)[j],
        {
            assert(reg.take(i + 1).drop_last() =~= reg.take(i as int));
            let m = &self.modules[i];
            let name = to_lowercase(m.name.as_str());
            let description = to_lowercase(m.description.as_str());
            let id = to_lowercase(m.id.as_str());
            if matches_folded(name.as_str(), description.as_str(), id.as_str(), q.as_str()) {
                r.push(m);
            }
        }
        assert(reg.take(n as int) =~= reg);
        proof {
            let res = search_spec(reg, q@);
            assert forall|i: int| 0 <= i < r@.len() implies self@.contains(*r@[i]) by {
                let k = choose|k: int| 0 <= k < reg.len() && #[trigger] res[i] == reg[k];
            }
            assert forall|i: int, j: int|
                0 <= i < r@.len() && 0 <= j < r@.len() && (*r@[i]).id@ == (*r@[j]).id@ implies i == j by {
                assert(res[i].id@ == res[j].id@);
            }
        }
        r
    }

    fn position(&self, id: &String) -> (r: Option<usize>)
        ensures
            match find(self@, id@, 0) {
                Some(k) => r is Some && r->Some_0 as int == k,
                None => r is None,
            },
            r matches Some(k) ==> k < self@.len() && self@[k as int].id@ == id@,
    {
        proof {
            lemma_find_is_match(self@, id@, 0);
        }
        let n = self.modules.len();
        for i in 0..n
            invariant
                n == self.modules.len(),
                find(self@, id@, 0) == find(self@, id@, i as int),
        {
            if self.modules[i].id == *id {
                return Some(i);
            }
        }
        None
    }
}


/// Progress of the depth-first walk on one module of the registry.
#[derive(Clone, Copy, Debug, PartialEq, Eq, Structural)]
pub enum Mark {
    /// Not reached yet.
    Fresh,
    /// Its dependencies are being visited.
    Active,
    /// It and all its dependencies are in the order.
    Done,
}

/// The mathematical content of a `ResolveError`.
pub enum ResolveFailure {
    ModuleNotFound(Seq<char>),
    CircularDependency(Seq<char>),
    Conflict(Seq<char>, Seq<char>),
}

/// Why a set of modules cannot be applied.
#[derive(Debug, Clone)]
pub enum ResolveError {
    /// A requested module, or a dependency, is not in the registry.
    ModuleNotFound(String),
    /// The walk came back to a module whose dependencies it was still visiting.
    CircularDependency(String),
    /// `module` declares a conflict with `conflicts_with`, and both were requested.
    Conflict { module: String, conflicts_with: String },
}

impl View for ResolveError {
    type V = ResolveFailure;

    open spec fn view(&self) -> ResolveFailure {
        match self {
            ResolveError::ModuleNotFound(id) => ResolveFailure::ModuleNotFound(id@),
            ResolveError::CircularDependency(id) => ResolveFailure::CircularDependency(id@),
            ResolveError::Conflict { module, conflicts_with } => ResolveFailure::Conflict(
                module@,
                conflicts_with@,
            ),
        }
    }
}

impl ResolveError {
    /// The error as text for a person, naming the module or modules concerned.
    pub fn message(&self) -> (r: String)
        ensures
            r@ == match self@ {
                ResolveFailure::ModuleNotFound(id) => "Module not found: "@ + id,
                ResolveFailure::CircularDependency(id) => "Circular dependency detected: "@ + id,
                ResolveFailure::Conflict(a, b) => "Conflict detected: "@ + a + " conflicts with "@ + b,
            },
    {
        match self {
            ResolveError::ModuleNotFound(id) => "Module not found: ".to_owned().concat(id.as_str()),
            ResolveError::CircularDependency(id) => "Circular dependency detected: ".to_owned().concat(
                id.as_str(),
            ),
            ResolveError::Conflict { module, conflicts_with } => "Conflict detected: ".to_owned().concat(
                module.as_str(),
            ).concat(" conflicts with ").concat(conflicts_with.as_str()),
        }
    }
}

/// How many modules the walk has not reached.
pub open spec fn fresh_count(marks: Seq<Mark>) -> nat
    decreases marks.len(),
{
    if marks.len() == 0 {
        0
    } else {
        fresh_count(marks.drop_last()) + if marks.last() == Mark::Fresh {
            1nat
        } else {
            0nat
        }
    }
}

/// The dependencies of the module with id `id`; none for an unknown id.
pub open spec fn deps_of(reg: Seq<Module>, id: Seq<char>) -> Seq<Seq<char>> {
    match lookup(reg, id) {
        Some(m) => strings_view(m.dependencies@),
        None => Seq::empty(),
    }
}

/// Visiting `id`: its dependencies in their declared order, then the module itself.
/// Returns the marks and the order after the visit.
pub open spec fn visit_spec(reg: Seq<Module>, id: Seq<char>, marks: Seq<Mark>, out: Seq<Seq<char>>) -> Result<
    (Seq<Mark>, Seq<Seq<char>>),
    ResolveFailure,
>
    decreases fresh_count(marks), 0nat, 0int,
{
    match find(reg, id, 0) {
        None => Err(ResolveFailure::ModuleNotFound(id)),
        Some(k) => {
            if !(0 <= k < marks.len()) {
                Ok((marks, out))
            } else if marks[k] == Mark::Done {
                Ok((marks, out))
            } else if marks[k] == Mark::Active {
                Err(ResolveFailure::CircularDependency(id))
            } else if fresh_count(marks.update(k, Mark::Active)) < fresh_count(marks) {
                match visit_all_spec(
                    reg,
                    strings_view(reg[k].dependencies@),
                    0,
                    marks.update(k, Mark::Active),
                    out,
                ) {
                    Ok(w) => Ok((w.0.update(k, Mark::Done), w.1.push(id))),
                    Err(f) => Err(f),
                }
            } else {
                Ok((marks, out))
            }
        },
    }
}

/// Visiting `ids[i]`, `ids[i + 1]`, ... in turn; the first failure stops the walk.
pub open spec fn visit_all_spec(
    reg: Seq<Module>,
    ids: Seq<Seq<char>>,
    i: int,
    marks: Seq<Mark>,
    out: Seq<Seq<char>>,
) -> Result<(Seq<Mark>, Seq<Seq<char>>), ResolveFailure>
    decreases fresh_count(marks), 1nat, ids.len() - i,
{
    if i < 0 || i >= ids.len() {
        Ok((marks, out))
    } else {
        match visit_spec(reg, ids[i], marks, out) {
            Err(f) => Err(f),
            Ok(w) => {
                if fresh_count(w.0) <= fresh_count(marks) {
                    visit_all_spec(reg, ids, i + 1, w.0, w.1)
                } else {
                    Ok(w)
                }
            },
        }
    }
}

/// The installation order for `ids`: a depth-first walk in request order, each
/// module after its dependencies.
pub open spec fn resolve_spec(reg: Seq<Module>, ids: Seq<Seq<char>>) -> Result<Seq<Seq<char>>, ResolveFailure> {
    match visit_all_spec(reg, ids, 0, Seq::new(reg.len(), |i: int| Mark::Fresh), Seq::empty()) {
        Ok(w) => Ok(w.1),
        Err(f) => Err(f),
    }
}

/// The mathematical content of a resolution result.
pub open spec fn order_outcome(r: Result<Vec<String>, ResolveError>) -> Result<Seq<Seq<char>>, ResolveFailure> {
    match r {
        Ok(v) => Ok(strings_view(v@)),
        Err(e) => Err(e@),
    }
}

/// No id occurs twice in `out`.
pub open spec fn no_duplicates(out: Seq<Seq<char>>) -> bool {
    forall|a: int, b: int|
        0 <= a < out.len() && 0 <= b < out.len() && #[trigger] out[a] == #[trigger] out[b] ==> a == b
}

/// Every id of `out` names a module of `reg`, and each of its dependencies stands
/// strictly before it.
pub open spec fn dependencies_first(reg: Seq<Module>, out: Seq<Seq<char>>) -> bool {
    &&& forall|t: int| 0 <= t < out.len() ==> #[trigger] lookup(reg, out[t]) is Some
    &&& forall|t: int, e: int|
        0 <= t < out.len() && 0 <= e < deps_of(reg, out[t]).len() ==> placed_before(
            out,
            t,
            #[trigger] deps_of(reg, out[t])[e],
        )
}

/// `x` stands in `out` before position `t`.
pub open spec fn placed_before(out: Seq<Seq<char>>, t: int, x: Seq<char>) -> bool {
    exists|s: int| 0 <= s < t && out[s] == x
}

/// `out` is an installation order for `ids`: each requested id is in it, no id twice,
/// every dependency before its dependent.
pub open spec fn install_order(reg: Seq<Module>, ids: Seq<Seq<char>>, out: Seq<Seq<char>>) -> bool {
    &&& no_duplicates(out)
    &&& dependencies_first(reg, out)
    &&& forall|i: int| 0 <= i < ids.len() ==> out.contains(#[trigger] ids[i])
}

/// `p` follows declared dependencies: each element is a dependency of the one before.
pub open spec fn is_dependency_path(reg: Seq<Module>, p: Seq<Seq<char>>) -> bool {
    &&& p.len() > 0
    &&& forall|t: int| 0 <= t < p.len() - 1 ==> deps_of(reg, #[trigger] p[t]).contains(p[t + 1])
}

/// `x` can be reached from a requested id by following dependencies.
pub open spec fn reachable(reg: Seq<Module>, ids: Seq<Seq<char>>, x: Seq<char>) -> bool {
    exists|p: Seq<Seq<char>>|
        #[trigger] is_dependency_path(reg, p) && ids.contains(p[0]) && p.last() == x
}

/// Every module reachable from `ids` is in the registry.
pub open spec fn closure_known(reg: Seq<Module>, ids: Seq<Seq<char>>) -> bool {
    forall|p: Seq<Seq<char>>|
        #[trigger] is_dependency_path(reg, p) && ids.contains(p[0]) ==> lookup(reg, p.last()) is Some
}

/// A dependency cycle, of any length, can be reached from `ids`.
pub open spec fn reachable_cycle(reg: Seq<Module>, ids: Seq<Seq<char>>) -> bool {
    exists|p: Seq<Seq<char>>, a: int, b: int|
        #![trigger is_dependency_path(reg, p), p[a], p[b]]
        is_dependency_path(reg, p) && ids.contains(p[0]) && 0 <= a < b < p.len() && p[a] == p[b]
}

/// What the walk keeps true between visits.
pub open spec fn walk_inv(reg: Seq<Module>, marks: Seq<Mark>, out: Seq<Seq<char>>) -> bool {
    &&& marks.len() == reg.len()
    &&& ids_distinct(reg)
    &&& no_duplicates(out)
    &&& dependencies_first(reg, out)
    &&& forall|k: int| 0 <= k < marks.len() && #[trigger] marks[k] == Mark::Done ==> out.contains(reg[k].id@)
    &&& forall|t: int|
        0 <= t < out.len() ==> (#[trigger] find(reg, out[t], 0) matches Some(k) && 0 <= k < marks.len()
            && marks[k] == Mark::Done)
}

/// `o1` begins with `o0`.
pub open spec fn extends(o0: Seq<Seq<char>>, o1: Seq<Seq<char>>) -> bool {
    &&& o0.len() <= o1.len()
    &&& forall|i: int| 0 <= i < o0.len() ==> #[trigger] o1[i] == o0[i]
}

proof fn lemma_fresh_count_update(marks: Seq<Mark>, k: int, v: Mark)
    requires
        0 <= k < marks.len(),
    ensures
        fresh_count(marks.update(k, v)) + (if marks[k] == Mark::Fresh { 1int } else { 0int })
            == fresh_count(marks) + (if v == Mark::Fresh { 1int } else { 0int }),
    decreases marks.len(),
{
    let u = marks.update(k, v);
    if k == marks.len() - 1 {
        assert(u.drop_last() =~= marks.drop_last());
    } else {
        assert(u.drop_last() =~= marks.drop_last().update(k, v));
        lemma_fresh_count_update(marks.drop_last(), k, v);
    }
}


/// Resolution depends on the registry and the request alone: two calls with the
/// same registry contents and the same requested ids give the same result.
pub proof fn lemma_resolve_repeatable(
    reg: Seq<Module>,
    ids: Seq<Seq<char>>,
    first: Result<Seq<Seq<char>>, ResolveFailure>,
    second: Result<Seq<Seq<char>>, ResolveFailure>,
)
    requires
        first == resolve_spec(reg, ids),
        second == resolve_spec(reg, ids),
    ensures
        first == second,
{
}

proof fn lemma_order_descends(
    reg: Seq<Module>,
    out: Seq<Seq<char>>,
    p: Seq<Seq<char>>,
    a: int,
    b: int,
    pa: int,
)
    requires
        dependencies_first(reg, out),
        is_dependency_path(reg, p),
        0 <= a < b < p.len(),
        0 <= pa < out.len(),
        out[pa] == p[a],
    ensures
        placed_before(out, pa, p[b]),
    decreases b - a,
{
    let deps = deps_of(reg, out[pa]);
    assert(deps_of(reg, p[a]).contains(p[a + 1]));
    let e = choose|e: int| 0 <= e < deps.len() && deps[e] == p[a + 1];
    assert(placed_before(out, pa, deps_of(reg, out[pa])[e]));
    if b > a + 1 {
        let s = choose|s: int| 0 <= s < pa && out[s] == p[a + 1];
        lemma_order_descends(reg, out, p, a + 1, b, s);
        let q = choose|q: int| 0 <= q < s && out[q] == p[b];
        assert(placed_before(out, pa, p[b]));
    }
}

proof fn lemma_order_has_no_cycle(reg: Seq<Module>, ids: Seq<Seq<char>>, out: Seq<Seq<char>>)
    requires
        install_order(reg, ids, out),
    ensures
        !reachable_cycle(reg, ids),
{
    if reachable_cycle(reg, ids) {
        let (p, a, b) = choose|p: Seq<Seq<char>>, a: int, b: int|
            #![trigger is_dependency_path(reg, p), p[a], p[b]]
            is_dependency_path(reg, p) && ids.contains(p[0]) && 0 <= a < b < p.len() && p[a] == p[b];
        let i = choose|i: int| 0 <= i < ids.len() && ids[i] == p[0];
        assert(out.contains(ids[i]));
        let q0 = choose|q: int| 0 <= q < out.len() && out[q] == p[0];
        let pa = if a == 0 {
            q0
        } else {
            lemma_order_descends(reg, out, p, 0, a, q0);
            choose|s: int| 0 <= s < q0 && out[s] == p[a]
        };
        lemma_order_descends(reg, out, p, a, b, pa);
        let pb = choose|s: int| 0 <= s < pa && out[s] == p[b];
        assert(out[pb] == out[pa]);
    }
}

proof fn lemma_push_keeps_order(reg: Seq<Module>, out: Seq<Seq<char>>, x: Seq<char>)
    requires
        dependencies_first(reg, out),
        lookup(reg, x) is Some,
        forall|e: int| 0 <= e < deps_of(reg, x).len() ==> out.contains(#[trigger] deps_of(reg, x)[e]),
    ensures
        dependencies_first(reg, out.push(x)),
{
    let o = out.push(x);
    assert forall|t: int| 0 <= t < o.len() implies #[trigger] lookup(reg, o[t]) is Some by {
        if t < out.len() {
            assert(o[t] == out[t]);
        }
    }
    assert forall|t: int, e: int|
        0 <= t < o.len() && 0 <= e < deps_of(reg, o[t]).len() implies placed_before(
            o,
            t,
            #[trigger] deps_of(reg, o[t])[e],
        ) by {
        if t < out.len() {
            assert(o[t] == out[t]);
            assert(placed_before(out, t, deps_of(reg, out[t])[e]));
            let s = choose|s: int| 0 <= s < t && out[s] == deps_of(reg, out[t])[e];
            assert(o[s] == out[s]);
        } else {
            assert(o[t] == x);
            assert(out.contains(deps_of(reg, x)[e]));
            let s = choose|s: int| 0 <= s < out.len() && out[s] == deps_of(reg, x)[e];
            assert(o[s] == out[s]);
        }
    }
}

/// The first of `ids`, from position `i` on, that the registry does not know.
pub open spec fn first_unknown(reg: Seq<Module>, ids: Seq<Seq<char>>, i: int) -> Option<Seq<char>>
    decreases ids.len() - i,
{
    if i < 0 || i >= ids.len() {
        None
    } else if lookup(reg, ids[i]) is None {
        Some(ids[i])
    } else {
        first_unknown(reg, ids, i + 1)
    }
}

/// The first of `cs`, from position `j` on, that `ids` holds.
pub open spec fn first_requested(cs: Seq<Seq<char>>, ids: Seq<Seq<char>>, j: int) -> Option<Seq<char>>
    decreases cs.len() - j,
{
    if j < 0 || j >= cs.len() {
        None
    } else if ids.contains(cs[j]) {
        Some(cs[j])
    } else {
        first_requested(cs, ids, j + 1)
    }
}

/// The conflicts that the module with id `id` declares.
pub open spec fn conflicts_of(reg: Seq<Module>, id: Seq<char>) -> Seq<Seq<char>> {
    match lookup(reg, id) {
        Some(m) => strings_view(m.conflicts@),
        None => Seq::empty(),
    }
}

/// The first pair found scanning `ids[i..]` in order, each against its own
/// module's declared conflicts in their order.
pub open spec fn first_conflict(reg: Seq<Module>, ids: Seq<Seq<char>>, i: int) -> Option<
    (Seq<char>, Seq<char>),
>
    decreases ids.len() - i,
{
    if i < 0 || i >= ids.len() {
        None
    } else {
        match first_requested(conflicts_of(reg, ids[i]), ids, 0) {
            Some(c) => Some((ids[i], c)),
            None => first_conflict(reg, ids, i + 1),
        }
    }
}

/// Why `ids` cannot be applied together: an unknown id first, else a declared conflict.
pub open spec fn conflict_failure(reg: Seq<Module>, ids: Seq<Seq<char>>) -> Option<ResolveFailure> {
    match first_unknown(reg, ids, 0) {
        Some(x) => Some(ResolveFailure::ModuleNotFound(x)),
        None => match first_conflict(reg, ids, 0) {
            Some(pair) => Some(ResolveFailure::Conflict(pair.0, pair.1)),
            None => None,
        },
    }
}

/// The mathematical content of a check result.
pub open spec fn check_outcome(r: Result<(), ResolveError>) -> Option<ResolveFailure> {
    match r {
        Ok(_) => None,
        Err(e) => Some(e@),
    }
}

proof fn lemma_first_requested_found(cs: Seq<Seq<char>>, ids: Seq<Seq<char>>, j: int, c: int)
    requires
        0 <= j <= c < cs.len(),
        ids.contains(cs[c]),
    ensures
        first_requested(cs, ids, j) is Some,
    decreases c - j,
{
    if !ids.contains(cs[j]) {
        lemma_first_requested_found(cs, ids, j + 1, c);
    }
}

proof fn lemma_first_conflict_found(reg: Seq<Module>, ids: Seq<Seq<char>>, i: int, a: int, c: int)
    requires
        0 <= i <= a < ids.len(),
        0 <= c < conflicts_of(reg, ids[a]).len(),
        ids.contains(conflicts_of(reg, ids[a])[c]),
    ensures
        first_conflict(reg, ids, i) is Some,
    decreases a - i,
{
    if i == a {
        lemma_first_requested_found(conflicts_of(reg, ids[a]), ids, 0, c);
    } else if first_requested(conflicts_of(reg, ids[i]), ids, 0) is None {
        lemma_first_conflict_found(reg, ids, i + 1, a, c);
    }
}

/// Conflicts need only be declared on one side: when every requested id is known
/// and module `ids[a]` lists a conflict with another requested id, the set is
/// refused with a conflict, whatever the other module declares.
pub proof fn lemma_one_sided_conflict_detected(reg: Seq<Module>, ids: Seq<Seq<char>>, a: int, c: int)
    requires
        forall|i: int| 0 <= i < ids.len() ==> #[trigger] lookup(reg, ids[i]) is Some,
        0 <= a < ids.len(),
        0 <= c < conflicts_of(reg, ids[a]).len(),
        ids.contains(conflicts_of(reg, ids[a])[c]),
    ensures
        conflict_failure(reg, ids) matches Some(ResolveFailure::Conflict(_, _)),
{
    lemma_first_unknown_none(reg, ids, 0);
    lemma_first_conflict_found(reg, ids, 0, a, c);
}

proof fn lemma_first_unknown_none(reg: Seq<Module>, ids: Seq<Seq<char>>, i: int)
    requires
        0 <= i,
        forall|j: int| 0 <= j < ids.len() ==> #[trigger] lookup(reg, ids[j]) is Some,
    ensures
        first_unknown(reg, ids, i) is None,
    decreases ids.len() - i,
{
    if i < ids.len() {
        lemma_first_unknown_none(reg, ids, i + 1);
    }
}

/// Whether `ids` holds `x`.
fn holds(ids: &[String], x: &String) -> (r: bool)
    ensures
        r == strings_view(ids@).contains(x@),
{
    let n = ids.len();
    for i in 0..n
        invariant
            n == ids@.len(),
            forall|j: int| 0 <= j < i ==> ids@[j]@ != x@,
    {
        if ids[i] == *x {
            assert(strings_view(ids@)[i as int] == x@);
            return true;
        }
    }
    assert forall|j: int| 0 <= j < strings_view(ids@).len() implies strings_view(ids@)[j] != x@ by {
        assert(strings_view(ids@)[j] == ids@[j]@);
    }
    false
}

/// The dependencies of the module at position `k` of `reg`.
pub open spec fn deps_at(reg: Seq<Module>, k: int) -> Seq<Seq<char>> {
    strings_view(reg[k].dependencies@)
}

/// The open frames of the walk: a module position and how many of its
/// dependencies have been taken up.
pub open spec fn frames_of(stack: Seq<(usize, usize)>) -> Seq<(int, int)> {
    stack.map_values(|f: (usize, usize)| (f.0 as int, f.1 as int))
}

/// What the walk yields once every open frame, the innermost first, has visited
/// its remaining dependencies and been finished.
pub open spec fn resume(reg: Seq<Module>, fs: Seq<(int, int)>, marks: Seq<Mark>, out: Seq<Seq<char>>) -> Result<
    (Seq<Mark>, Seq<Seq<char>>),
    ResolveFailure,
>
    decreases fs.len(),
{
    if fs.len() == 0 {
        Ok((marks, out))
    } else {
        let f = fs.last();
        match visit_all_spec(reg, deps_at(reg, f.0), f.1, marks, out) {
            Err(e) => Err(e),
            Ok(w) => resume(reg, fs.drop_last(), w.0.update(f.0, Mark::Done), w.1.push(reg[f.0].id@)),
        }
    }
}

/// The steps left in the open frames: each frame's remaining dependencies, and
/// finishing it.
pub open spec fn work(reg: Seq<Module>, fs: Seq<(int, int)>) -> nat
    decreases fs.len(),
{
    if fs.len() == 0 {
        0
    } else {
        work(reg, fs.drop_last()) + if fs.last().1 <= deps_at(reg, fs.last().0).len() {
            (deps_at(reg, fs.last().0).len() - fs.last().1 + 1) as nat
        } else {
            0nat
        }
    }
}

/// The frames name distinct modules of `reg`, each within its dependency list.
pub open spec fn frames_wf(reg: Seq<Module>, fs: Seq<(int, int)>) -> bool {
    &&& forall|t: int|
        0 <= t < fs.len() ==> 0 <= (#[trigger] fs[t]).0 < reg.len() && 0 <= fs[t].1 <= deps_at(reg, fs[t].0).len()
    &&& forall|a: int, b: int| 0 <= a < fs.len() && 0 <= b < fs.len() && (#[trigger] fs[a]).0 == (#[trigger] fs[b]).0 ==> a == b
}

/// Module `j` has an open frame.
pub open spec fn in_frames(fs: Seq<(int, int)>, j: int) -> bool {
    exists|t: int| 0 <= t < fs.len() && (#[trigger] fs[t]).0 == j
}

/// The active modules are exactly those with an open frame.
pub open spec fn active_frames(marks: Seq<Mark>, fs: Seq<(int, int)>) -> bool {
    forall|j: int| 0 <= j < marks.len() ==> (#[trigger] marks[j] == Mark::Active) == in_frames(fs, j)
}

/// Each frame's dependencies taken up so far are in `out`, but for the one
/// whose frame is open just above it.
pub open spec fn frames_linked(reg: Seq<Module>, fs: Seq<(int, int)>, out: Seq<Seq<char>>) -> bool {
    &&& forall|t: int|
        0 <= t < fs.len() - 1 ==> (#[trigger] fs[t]).1 >= 1 && deps_at(reg, fs[t].0)[fs[t].1 - 1]
            == reg[fs[t + 1].0].id@
    &&& forall|t: int, e: int|
        #![trigger deps_at(reg, fs[t].0)[e]]
        0 <= t < fs.len() && 0 <= e < fs[t].1 && !(t < fs.len() - 1 && e == fs[t].1 - 1) ==> out.contains(
            deps_at(reg, fs[t].0)[e],
        )
}

proof fn lemma_visit_monotone(reg: Seq<Module>, id: Seq<char>, marks: Seq<Mark>, out: Seq<Seq<char>>)
    ensures
        visit_spec(reg, id, marks, out) matches Ok(w) ==> w.0.len() == marks.len() && fresh_count(w.0)
            <= fresh_count(marks),
    decreases fresh_count(marks), 0nat, 0int,
{
    match find(reg, id, 0) {
        None => {},
        Some(k) => {
            if 0 <= k < marks.len() && marks[k] == Mark::Fresh && fresh_count(marks.update(k, Mark::Active))
                < fresh_count(marks) {
                let m1 = marks.update(k, Mark::Active);
                lemma_visit_all_monotone(reg, strings_view(reg[k].dependencies@), 0, m1, out);
                match visit_all_spec(reg, strings_view(reg[k].dependencies@), 0, m1, out) {
                    Ok(w) => {
                        lemma_fresh_count_update(w.0, k, Mark::Done);
                    },
                    Err(_) => {},
                }
            }
        },
    }
}

proof fn lemma_visit_all_monotone(
    reg: Seq<Module>,
    ids: Seq<Seq<char>>,
    i: int,
    marks: Seq<Mark>,
    out: Seq<Seq<char>>,
)
    ensures
        visit_all_spec(reg, ids, i, marks, out) matches Ok(w) ==> w.0.len() == marks.len()
            && fresh_count(w.0) <= fresh_count(marks),
        0 <= i < ids.len() ==> (visit_spec(reg, ids[i], marks, out) matches Ok(w) ==> fresh_count(w.0)
            <= fresh_count(marks)),
    decreases fresh_count(marks), 1nat, ids.len() - i,
{
    if 0 <= i < ids.len() {
        lemma_visit_monotone(reg, ids[i], marks, out);
        match visit_spec(reg, ids[i], marks, out) {
            Ok(w) => {
                lemma_visit_all_monotone(reg, ids, i + 1, w.0, w.1);
            },
            Err(_) => {},
        }
    }
}

proof fn lemma_resume_step_error(reg: Seq<Module>, fs: Seq<(int, int)>, m: Seq<Mark>, out: Seq<Seq<char>>)
    requires
        fs.len() > 0,
        0 <= fs.last().1 < deps_at(reg, fs.last().0).len(),
        visit_spec(reg, deps_at(reg, fs.last().0)[fs.last().1], m, out) is Err,
    ensures
        resume(reg, fs, m, out) == visit_spec(reg, deps_at(reg, fs.last().0)[fs.last().1], m, out),
{
}

proof fn lemma_resume_advance(reg: Seq<Module>, fs: Seq<(int, int)>, m: Seq<Mark>, out: Seq<Seq<char>>)
    requires
        fs.len() > 0,
        0 <= fs.last().1 < deps_at(reg, fs.last().0).len(),
        visit_spec(reg, deps_at(reg, fs.last().0)[fs.last().1], m, out) == Ok::<
            (Seq<Mark>, Seq<Seq<char>>),
            ResolveFailure,
        >((m, out)),
    ensures
        resume(reg, fs.update(fs.len() - 1, (fs.last().0, fs.last().1 + 1)), m, out) == resume(reg, fs, m, out),
{
    let g = fs.update(fs.len() - 1, (fs.last().0, fs.last().1 + 1));
    assert(g.drop_last() =~= fs.drop_last());
}

proof fn lemma_resume_push(reg: Seq<Module>, fs: Seq<(int, int)>, m: Seq<Mark>, out: Seq<Seq<char>>, j: int)
    requires
        fs.len() > 0,
        0 <= fs.last().1 < deps_at(reg, fs.last().0).len(),
        find(reg, deps_at(reg, fs.last().0)[fs.last().1], 0) == Some(j),
        0 <= j < m.len(),
        m[j] == Mark::Fresh,
        reg[j].id@ == deps_at(reg, fs.last().0)[fs.last().1],
    ensures
        resume(
            reg,
            fs.update(fs.len() - 1, (fs.last().0, fs.last().1 + 1)).push((j, 0)),
            m.update(j, Mark::Active),
            out,
        ) == resume(reg, fs, m, out),
{
    let top = fs.last();
    let d = deps_at(reg, top.0)[top.1];
    let g = fs.update(fs.len() - 1, (top.0, top.1 + 1));
    let h = g.push((j, 0));
    let m1 = m.update(j, Mark::Active);
    lemma_fresh_count_update(m, j, Mark::Active);
    assert(h.drop_last() =~= g);
    assert(h.last() == (j, 0int));
    assert(g.drop_last() =~= fs.drop_last());
    assert(g.last() == (top.0, top.1 + 1));
    lemma_visit_all_monotone(reg, deps_at(reg, j), 0, m1, out);
    lemma_visit_monotone(reg, d, m, out);
    match visit_all_spec(reg, deps_at(reg, j), 0, m1, out) {
        Ok(w) => {
            lemma_fresh_count_update(w.0, j, Mark::Done);
            let big_w = (w.0.update(j, Mark::Done), w.1.push(d));
            assert(visit_spec(reg, d, m, out) == Ok::<(Seq<Mark>, Seq<Seq<char>>), ResolveFailure>(big_w));
            assert(fresh_count(big_w.0) <= fresh_count(m));
            assert(visit_all_spec(reg, deps_at(reg, top.0), top.1, m, out) == visit_all_spec(
                reg,
                deps_at(reg, top.0),
                top.1 + 1,
                big_w.0,
                big_w.1,
            ));
            assert(resume(reg, h, m1, out) == resume(reg, g, big_w.0, big_w.1));
        },
        Err(e) => {
            assert(visit_spec(reg, d, m, out) == Err::<(Seq<Mark>, Seq<Seq<char>>), ResolveFailure>(e));
        },
    }
}

proof fn lemma_resume_pop(reg: Seq<Module>, fs: Seq<(int, int)>, m: Seq<Mark>, out: Seq<Seq<char>>)
    requires
        fs.len() > 0,
        fs.last().1 == deps_at(reg, fs.last().0).len(),
    ensures
        resume(reg, fs, m, out) == resume(
            reg,
            fs.drop_last(),
            m.update(fs.last().0, Mark::Done),
            out.push(reg[fs.last().0].id@),
        ),
{
}

proof fn lemma_reach_dep(reg: Seq<Module>, ids: Seq<Seq<char>>, x: Seq<char>, d: Seq<char>, k: int)
    requires
        reachable(reg, ids, x),
        find(reg, x, 0) == Some(k),
        strings_view(reg[k].dependencies@).contains(d),
    ensures
        reachable(reg, ids, d),
{
    let p = choose|p: Seq<Seq<char>>| #[trigger] is_dependency_path(reg, p) && ids.contains(p[0]) && p.last() == x;
    let q = p.push(d);
    assert forall|t: int| 0 <= t < q.len() - 1 implies deps_of(reg, #[trigger] q[t]).contains(q[t + 1]) by {
        if t == q.len() - 2 {
            assert(q[t] == x);
            assert(q[t + 1] == d);
        } else {
            assert(q[t] == p[t]);
            assert(q[t + 1] == p[t + 1]);
        }
    }
    assert(is_dependency_path(reg, q));
    assert(q[0] == p[0]);
}

proof fn lemma_work_top(reg: Seq<Module>, fs: Seq<(int, int)>, g: Seq<(int, int)>)
    requires
        fs.len() > 0,
        g.len() == fs.len(),
        g.drop_last() == fs.drop_last(),
        g.last().0 == fs.last().0,
        g.last().1 == fs.last().1 + 1,
        0 <= fs.last().1 < deps_at(reg, fs.last().0).len(),
    ensures
        work(reg, g) < work(reg, fs),
{
}

proof fn lemma_frames_advance(
    reg: Seq<Module>,
    ids: Seq<Seq<char>>,
    fs: Seq<(int, int)>,
    m: Seq<Mark>,
    out: Seq<Seq<char>>,
)
    requires
        fs.len() > 0,
        frames_wf(reg, fs),
        active_frames(m, fs),
        frames_linked(reg, fs, out),
        forall|t: int| 0 <= t < fs.len() ==> reachable(reg, ids, reg[(#[trigger] fs[t]).0].id@),
        0 <= fs.last().1 < deps_at(reg, fs.last().0).len(),
        out.contains(deps_at(reg, fs.last().0)[fs.last().1]),
    ensures
        ({
            let g = fs.update(fs.len() - 1, (fs.last().0, fs.last().1 + 1));
            &&& frames_wf(reg, g)
            &&& active_frames(m, g)
            &&& frames_linked(reg, g, out)
            &&& work(reg, g) < work(reg, fs)
            &&& forall|t: int| 0 <= t < g.len() ==> reachable(reg, ids, reg[(#[trigger] g[t]).0].id@)
            &&& g[0].0 == fs[0].0
        }),
{
    let last = fs.len() - 1;
    let top = fs.last();
    let g = fs.update(last, (top.0, top.1 + 1));
    assert forall|t: int| 0 <= t < g.len() implies (#[trigger] g[t]).0 == fs[t].0 by {}
    assert forall|j: int| 0 <= j < m.len() implies (#[trigger] m[j] == Mark::Active) == in_frames(g, j) by {
        if in_frames(fs, j) {
            let t = choose|t: int| 0 <= t < fs.len() && (#[trigger] fs[t]).0 == j;
            assert(g[t].0 == j);
        }
        if in_frames(g, j) {
            let t = choose|t: int| 0 <= t < g.len() && (#[trigger] g[t]).0 == j;
            assert(fs[t].0 == j);
        }
    }
    assert forall|t: int, e: int|
        #![trigger deps_at(reg, g[t].0)[e]]
        0 <= t < g.len() && 0 <= e < g[t].1 && !(t < g.len() - 1 && e == g[t].1 - 1) implies out.contains(
        deps_at(reg, g[t].0)[e],
    ) by {
        if t == last {
            if e < top.1 {
                assert(deps_at(reg, fs[t].0)[e] == deps_at(reg, g[t].0)[e]);
            }
        } else {
            assert(g[t] == fs[t]);
            assert(deps_at(reg, fs[t].0)[e] == deps_at(reg, g[t].0)[e]);
        }
    }
    assert forall|t: int| 0 <= t < g.len() - 1 implies (#[trigger] g[t]).1 >= 1 && deps_at(reg, g[t].0)[g[t].1 - 1]
        == reg[g[t + 1].0].id@ by {
        assert(g[t] == fs[t]);
        assert(fs[t].1 >= 1);
    }
    assert(g.drop_last() =~= fs.drop_last());
    lemma_work_top(reg, fs, g);
}

proof fn lemma_frames_push(
    reg: Seq<Module>,
    ids: Seq<Seq<char>>,
    fs: Seq<(int, int)>,
    m: Seq<Mark>,
    out: Seq<Seq<char>>,
    j: int,
)
    requires
        fs.len() > 0,
        frames_wf(reg, fs),
        active_frames(m, fs),
        frames_linked(reg, fs, out),
        forall|t: int| 0 <= t < fs.len() ==> reachable(reg, ids, reg[(#[trigger] fs[t]).0].id@),
        m.len() == reg.len(),
        0 <= fs.last().1 < deps_at(reg, fs.last().0).len(),
        0 <= j < reg.len(),
        m[j] == Mark::Fresh,
        reg[j].id@ == deps_at(reg, fs.last().0)[fs.last().1],
        reachable(reg, ids, reg[j].id@),
    ensures
        ({
            let h = fs.update(fs.len() - 1, (fs.last().0, fs.last().1 + 1)).push((j, 0));
            &&& frames_wf(reg, h)
            &&& active_frames(m.update(j, Mark::Active), h)
            &&& frames_linked(reg, h, out)
            &&& forall|t: int| 0 <= t < h.len() ==> reachable(reg, ids, reg[(#[trigger] h[t]).0].id@)
            &&& h[0].0 == fs[0].0
        }),
{
    let last = fs.len() - 1;
    let top = fs.last();
    let g = fs.update(last, (top.0, top.1 + 1));
    let h = g.push((j, 0));
    let m1 = m.update(j, Mark::Active);
    assert(!in_frames(fs, j));
    assert forall|t: int| 0 <= t < fs.len() implies (#[trigger] h[t]).0 == fs[t].0 by {}
    assert(h[fs.len() as int] == (j, 0int));
    assert forall|a: int, b: int|
        0 <= a < h.len() && 0 <= b < h.len() && (#[trigger] h[a]).0 == (#[trigger] h[b]).0 implies a == b by {
        if a < fs.len() && b == fs.len() {
            assert(fs[a].0 == j);
        } else if b < fs.len() && a == fs.len() {
            assert(fs[b].0 == j);
        } else if a < fs.len() && b < fs.len() {
            assert(fs[a].0 == fs[b].0);
        }
    }
    assert forall|t: int|
        0 <= t < h.len() implies 0 <= (#[trigger] h[t]).0 < reg.len() && 0 <= h[t].1 <= deps_at(reg, h[t].0).len() by {
        if t < fs.len() {
            assert(fs[t].0 == h[t].0);
        }
    }
    assert forall|i: int| 0 <= i < m1.len() implies (#[trigger] m1[i] == Mark::Active) == in_frames(h, i) by {
        if i == j {
            assert(h[fs.len() as int].0 == j);
        } else {
            if in_frames(fs, i) {
                let t = choose|t: int| 0 <= t < fs.len() && (#[trigger] fs[t]).0 == i;
                assert(h[t].0 == i);
            }
            if in_frames(h, i) {
                let t = choose|t: int| 0 <= t < h.len() && (#[trigger] h[t]).0 == i;
                assert(t < fs.len());
                assert(fs[t].0 == i);
            }
        }
    }
    assert forall|t: int| 0 <= t < h.len() - 1 implies (#[trigger] h[t]).1 >= 1 && deps_at(reg, h[t].0)[h[t].1 - 1]
        == reg[h[t + 1].0].id@ by {
        if t < last {
            assert(h[t] == fs[t]);
            assert(h[t + 1].0 == fs[t + 1].0);
            assert(fs[t].1 >= 1);
        } else {
            assert(h[t] == (top.0, top.1 + 1));
            assert(h[t + 1] == (j, 0int));
        }
    }
    assert forall|t: int, e: int|
        #![trigger deps_at(reg, h[t].0)[e]]
        0 <= t < h.len() && 0 <= e < h[t].1 && !(t < h.len() - 1 && e == h[t].1 - 1) implies out.contains(
        deps_at(reg, h[t].0)[e],
    ) by {
        if t < last {
            assert(h[t] == fs[t]);
            assert(deps_at(reg, fs[t].0)[e] == deps_at(reg, h[t].0)[e]);
        } else if t == last {
            assert(h[t] == (top.0, top.1 + 1));
            assert(e < top.1);
            assert(deps_at(reg, fs[t].0)[e] == deps_at(reg, h[t].0)[e]);
        }
    }
    assert forall|t: int| 0 <= t < h.len() implies reachable(reg, ids, reg[(#[trigger] h[t]).0].id@) by {
        if t < fs.len() {
            assert(h[t].0 == fs[t].0);
        }
    }
}

proof fn lemma_frames_pop(
    reg: Seq<Module>,
    ids: Seq<Seq<char>>,
    fs: Seq<(int, int)>,
    m: Seq<Mark>,
    out: Seq<Seq<char>>,
)
    requires
        fs.len() > 0,
        frames_wf(reg, fs),
        active_frames(m, fs),
        frames_linked(reg, fs, out),
        forall|t: int| 0 <= t < fs.len() ==> reachable(reg, ids, reg[(#[trigger] fs[t]).0].id@),
        walk_inv(reg, m, out),
        fs.last().1 == deps_at(reg, fs.last().0).len(),
    ensures
        ({
            let k = fs.last().0;
            let f2 = fs.drop_last();
            let m2 = m.update(k, Mark::Done);
            let o2 = out.push(reg[k].id@);
            &&& frames_wf(reg, f2)
            &&& active_frames(m2, f2)
            &&& frames_linked(reg, f2, o2)
            &&& walk_inv(reg, m2, o2)
            &&& work(reg, f2) < work(reg, fs)
            &&& fresh_count(m2) == fresh_count(m)
            &&& forall|t: int| 0 <= t < f2.len() ==> reachable(reg, ids, reg[(#[trigger] f2[t]).0].id@)
            &&& extends(out, o2)
            &&& f2.len() > 0 ==> f2[0].0 == fs[0].0
        }),
{
    let last = fs.len() - 1;
    let top = fs.last();
    let k = top.0;
    let f2 = fs.drop_last();
    let m2 = m.update(k, Mark::Done);
    let x = reg[k].id@;
    let o2 = out.push(x);
    assert(fs[last] == top);
    assert(m[k] == Mark::Active);
    lemma_fresh_count_update(m, k, Mark::Done);
    lemma_find_distinct(reg, k);
    assert(!out.contains(x)) by {
        if out.contains(x) {
            let t = choose|t: int| 0 <= t < out.len() && out[t] == x;
            assert(find(reg, out[t], 0) == Some(k));
        }
    }
    assert(o2[out.len() as int] == x);
    assert forall|a: int, b: int|
        0 <= a < o2.len() && 0 <= b < o2.len() && #[trigger] o2[a] == #[trigger] o2[b] implies a == b by {
        if a < out.len() && b == out.len() {
            assert(out[a] == x);
        }
        if b < out.len() && a == out.len() {
            assert(out[b] == x);
        }
    }
    assert forall|e: int| 0 <= e < deps_of(reg, x).len() implies out.contains(#[trigger] deps_of(reg, x)[e]) by {
        assert(deps_of(reg, x) == deps_at(reg, k));
        assert(deps_at(reg, fs[last].0)[e] == deps_of(reg, x)[e]);
    }
    lemma_push_keeps_order(reg, out, x);
    assert forall|i: int| 0 <= i < m2.len() && #[trigger] m2[i] == Mark::Done implies o2.contains(reg[i].id@) by {
        if i == k {
            assert(o2[out.len() as int] == reg[i].id@);
        } else {
            assert(m[i] == Mark::Done);
            let t = choose|t: int| 0 <= t < out.len() && out[t] == reg[i].id@;
            assert(o2[t] == out[t]);
        }
    }
    assert forall|t: int|
        0 <= t < o2.len() implies (#[trigger] find(reg, o2[t], 0) matches Some(kk) && 0 <= kk < m2.len()
        && m2[kk] == Mark::Done) by {
        if t < out.len() {
            assert(o2[t] == out[t]);
        }
    }
    assert forall|t: int| 0 <= t < f2.len() implies (#[trigger] f2[t]) == fs[t] by {}
    assert forall|i: int| 0 <= i < m2.len() implies (#[trigger] m2[i] == Mark::Active) == in_frames(f2, i) by {
        if i == k {
            if in_frames(f2, i) {
                let t = choose|t: int| 0 <= t < f2.len() && (#[trigger] f2[t]).0 == i;
                assert(fs[t].0 == fs[last].0);
            }
        } else {
            if in_frames(fs, i) {
                let t = choose|t: int| 0 <= t < fs.len() && (#[trigger] fs[t]).0 == i;
                assert(t != last);
                assert(f2[t].0 == i);
            }
            if in_frames(f2, i) {
                let t = choose|t: int| 0 <= t < f2.len() && (#[trigger] f2[t]).0 == i;
                assert(fs[t].0 == i);
            }
        }
    }
    assert forall|t: int| 0 <= t < f2.len() - 1 implies (#[trigger] f2[t]).1 >= 1 && deps_at(reg, f2[t].0)[f2[t].1 - 1]
        == reg[f2[t + 1].0].id@ by {
        assert(f2[t] == fs[t]);
        assert(f2[t + 1] == fs[t + 1]);
        assert(fs[t].1 >= 1);
    }
    assert forall|t: int, e: int|
        #![trigger deps_at(reg, f2[t].0)[e]]
        0 <= t < f2.len() && 0 <= e < f2[t].1 && !(t < f2.len() - 1 && e == f2[t].1 - 1) implies o2.contains(
        deps_at(reg, f2[t].0)[e],
    ) by {
        assert(f2[t] == fs[t]);
        assert(deps_at(reg, fs[t].0)[e] == deps_at(reg, f2[t].0)[e]);
        if t == f2.len() - 1 && e == f2[t].1 - 1 {
            assert(fs[t].1 >= 1);
            assert(deps_at(reg, fs[t].0)[fs[t].1 - 1] == reg[fs[t + 1].0].id@);
            assert(o2[out.len() as int] == x);
        } else {
            assert(out.contains(deps_at(reg, fs[t].0)[e]));
            let s0 = choose|s0: int| 0 <= s0 < out.len() && out[s0] == deps_at(reg, fs[t].0)[e];
            assert(o2[s0] == out[s0]);
        }
    }
}

/// `x` lies on a dependency cycle: a path of at least one step leads from it
/// back to it.
pub open spec fn on_cycle(reg: Seq<Module>, x: Seq<char>) -> bool {
    exists|p: Seq<Seq<char>>| #[trigger] is_dependency_path(reg, p) && p.len() >= 2 && p[0] == x && p.last() == x
}

proof fn lemma_active_dep_on_cycle(
    reg: Seq<Module>,
    fs: Seq<(int, int)>,
    m: Seq<Mark>,
    out: Seq<Seq<char>>,
    j: int,
)
    requires
        fs.len() > 0,
        ids_distinct(reg),
        frames_wf(reg, fs),
        active_frames(m, fs),
        frames_linked(reg, fs, out),
        m.len() == reg.len(),
        0 <= fs.last().1 < deps_at(reg, fs.last().0).len(),
        0 <= j < m.len(),
        m[j] == Mark::Active,
        reg[j].id@ == deps_at(reg, fs.last().0)[fs.last().1],
    ensures
        on_cycle(reg, deps_at(reg, fs.last().0)[fs.last().1]),
{
    let last = fs.len() - 1;
    let d = deps_at(reg, fs.last().0)[fs.last().1];
    assert(in_frames(fs, j));
    let t = choose|t: int| 0 <= t < fs.len() && (#[trigger] fs[t]).0 == j;
    let n = fs.len() - t;
    let p = Seq::new((n + 1) as nat, |i: int| if i < n { reg[fs[t + i].0].id@ } else { d });
    assert forall|i: int| 0 <= i < p.len() - 1 implies deps_of(reg, #[trigger] p[i]).contains(p[i + 1]) by {
        let s0 = t + i;
        assert(0 <= fs[s0].0 < reg.len());
        lemma_find_distinct(reg, fs[s0].0);
        assert(p[i] == reg[fs[s0].0].id@);
        assert(deps_of(reg, p[i]) == deps_at(reg, fs[s0].0));
        if i < n - 1 {
            assert(fs[s0].1 >= 1);
            assert(deps_at(reg, fs[s0].0)[fs[s0].1 - 1] == reg[fs[s0 + 1].0].id@);
            assert(p[i + 1] == reg[fs[s0 + 1].0].id@);
            assert(0 <= fs[s0].1 - 1 < deps_at(reg, fs[s0].0).len());
        } else {
            assert(s0 == last);
            assert(p[i + 1] == d);
        }
    }
    assert(is_dependency_path(reg, p));
    assert(p[0] == reg[j].id@);
}

/// Orders and checks requested modules against a registry, which it never changes.
pub struct ModuleResolver<'a> {
    registry: &'a ModuleRegistry,
}

impl<'a> ModuleResolver<'a> {
    /// The modules that the resolver reads.
    pub closed spec fn spec_registry(&self) -> Seq<Module> {
        self.registry@
    }

    pub fn new(registry: &'a ModuleRegistry) -> (r: Self)
        ensures
            r.spec_registry() == registry@,
    {
        ModuleResolver { registry }
    }

    /// The order in which to apply `module_ids` and everything they depend on: a
    /// depth-first walk over the requests in order, each module after its declared
    /// dependencies, in their declared order.  The first module that is missing, or
    /// that the walk reaches again while visiting its own dependencies, stops it.
    pub fn resolve(&self, module_ids: &[String]) -> (r: Result<Vec<String>, ResolveError>)
        ensures
            order_outcome(r) == resolve_spec(self.spec_registry(), strings_view(module_ids@)),
            r matches Ok(v) ==> install_order(
                self.spec_registry(),
                strings_view(module_ids@),
                strings_view(v@),
            ),
            r matches Err(e) ==> (e@ matches ResolveFailure::ModuleNotFound(x) ==> lookup(
                self.spec_registry(),
                x,
            ) is None && reachable(self.spec_registry(), strings_view(module_ids@), x)),
            r matches Err(e) ==> (e@ matches ResolveFailure::CircularDependency(x) ==> on_cycle(
                self.spec_registry(),
                x,
            )),
            closure_known(self.spec_registry(), strings_view(module_ids@)) && reachable_cycle(
                self.spec_registry(),
                strings_view(module_ids@),
            ) ==> (r matches Err(e) && e@ is CircularDependency),
    {
        proof {
            use_type_invariant(self.registry);
        }
        let ghost reg = self.registry@;
        let ghost ids = strings_view(module_ids@);
        let n_reg = self.registry.modules.len();
        let mut marks: Vec<Mark> = Vec::new();
        for j in 0..n_reg
            invariant
                n_reg == reg.len(),
                marks@ =~= Seq::new(j as nat, |i: int| Mark::Fresh),
        {
            marks.push(Mark::Fresh);
        }
        let ghost m0 = marks@;
        assert(m0 =~= Seq::new(reg.len(), |i: int| Mark::Fresh));
        let mut resolved: Vec<String> = Vec::new();
        assert(strings_view(resolved@) =~= Seq::<Seq<char>>::empty());
        let n = module_ids.len();
        for i in 0..n
            invariant
                n == module_ids@.len(),
                ids == strings_view(module_ids@),
                reg == self.registry@,
                ids_distinct(reg),
                m0 == Seq::new(reg.len(), |i: int| Mark::Fresh),
                walk_inv(reg, marks@, strings_view(resolved@)),
                forall|j: int| 0 <= j < marks@.len() ==> #[trigger] marks@[j] != Mark::Active,
                visit_all_spec(reg, ids, 0, m0, Seq::empty()) == visit_all_spec(
                    reg,
                    ids,
                    i as int,
                    marks@,
                    strings_view(resolved@),
                ),
                forall|e: int| 0 <= e < i ==> strings_view(resolved@).contains(#[trigger] ids[e]),
        {
            let ghost before = strings_view(resolved@);
            let ghost mb = marks@;
            let ghost start = seq![ids[i as int]];
            proof {
                assert(ids.contains(start[0]));
            }
            let r = self.visit(&module_ids[i], &mut resolved, &mut marks, Ghost(ids), Ghost(start));
            match r {
                Err(e) => {
                    proof {
                        assert(visit_all_spec(reg, ids, i as int, mb, before) == visit_spec(reg, ids[i as int], mb, before));
                        if e@ is ModuleNotFound {
                            let x = e@->ModuleNotFound_0;
                            let p = choose|p: Seq<Seq<char>>|
                                #[trigger] is_dependency_path(reg, p) && ids.contains(p[0]) && p.last() == x;
                            assert(closure_known(reg, ids) ==> lookup(reg, p.last()) is Some);
                        }
                    }
                    return Err(e);
                },
                Ok(()) => {},
            }
            proof {
                assert forall|e: int| 0 <= e < i + 1 implies strings_view(resolved@).contains(#[trigger] ids[e]) by {
                    if e < i {
                        let s = choose|s: int| 0 <= s < before.len() && before[s] == ids[e];
                        assert(strings_view(resolved@)[s] == ids[e]);
                    }
                }
            }
        }
        proof {
            lemma_order_has_no_cycle(reg, ids, strings_view(resolved@));
        }
        Ok(resolved)
    }

    /// Checks that `module_ids` can be applied together: each must be known, and
    /// no module may list another requested module among its conflicts.  A
    /// conflict declared by one side alone is enough.
    pub fn check_conflicts(&self, module_ids: &[String]) -> (r: Result<(), ResolveError>)
        ensures
            check_outcome(r) == conflict_failure(self.spec_registry(), strings_view(module_ids@)),
    {
        let ghost reg = self.registry@;
        let ghost ids = strings_view(module_ids@);
        let n = module_ids.len();
        let mut found: Vec<usize> = Vec::new();
        for i in 0..n
            invariant
                n == module_ids@.len(),
                ids == strings_view(module_ids@),
                reg == self.registry@,
                first_unknown(reg, ids, 0) == first_unknown(reg, ids, i as int),
                found@.len() == i,
                forall|j: int| 0 <= j < i ==> find(reg, #[trigger] ids[j], 0) == Some(found@[j] as int),
        {
            assert(ids[i as int] == module_ids@[i as int]@);
            match self.registry.position(&module_ids[i]) {
                None => {
                    return Err(ResolveError::ModuleNotFound(module_ids[i].clone()));
                },
                Some(k) => {
                    found.push(k);
                },
            }
        }
        for i in 0..n
            invariant
                n == module_ids@.len(),
                ids == strings_view(module_ids@),
                reg == self.registry@,
                first_unknown(reg, ids, 0) is None,
                found@.len() == n,
                forall|j: int| 0 <= j < n ==> find(reg, #[trigger] ids[j], 0) == Some(found@[j] as int),
                first_conflict(reg, ids, 0) == first_conflict(reg, ids, i as int),
        {
            proof {
                lemma_find_is_match(reg, ids[i as int], 0);
            }
            let module = &self.registry.modules[found[i]];
            let ghost cs = strings_view(module.conflicts@);
            assert(cs == conflicts_of(reg, ids[i as int]));
            let m = module.conflicts.len();
            for j in 0..m
                invariant
                    m == cs.len(),
                    cs == strings_view(module.conflicts@),
                    ids == strings_view(module_ids@),
                    first_requested(cs, ids, 0) == first_requested(cs, ids, j as int),
                    0 <= i < n,
                    n == module_ids@.len(),
                    reg == self.registry@,
                    cs == conflicts_of(reg, ids[i as int]),
                    first_unknown(reg, ids, 0) is None,
                    first_conflict(reg, ids, 0) == first_conflict(reg, ids, i as int),
            {
                assert(cs[j as int] == module.conflicts@[j as int]@);
                if holds(module_ids, &module.conflicts[j]) {
                    return Err(
                        ResolveError::Conflict {
                            module: module_ids[i].clone(),
                            conflicts_with: module.conflicts[j].clone(),
                        },
                    );
                }
            }
        }
        Ok(())
    }

    /// Visits `id` and everything it depends on, appending each finished module
    /// to `resolved`.  The walk keeps its open modules on an explicit stack of
    /// (module, next dependency) frames, so its depth costs no call stack.
    fn visit(
        &self,
        id: &String,
        resolved: &mut Vec<String>,
        marks: &mut Vec<Mark>,
        ids: Ghost<Seq<Seq<char>>>,
        path: Ghost<Seq<Seq<char>>>,
    ) -> (r: Result<(), ResolveError>)
        requires
            walk_inv(self.registry@, old(marks)@, strings_view(old(resolved)@)),
            forall|j: int| 0 <= j < old(marks)@.len() ==> #[trigger] old(marks)@[j] != Mark::Active,
            is_dependency_path(self.registry@, path@),
            ids@.contains(path@[0]),
            path@.last() == id@,
        ensures
            match visit_spec(self.registry@, id@, old(marks)@, strings_view(old(resolved)@)) {
                Ok(w) => r is Ok && final(marks)@ == w.0 && strings_view(final(resolved)@) == w.1,
                Err(f) => r is Err && r->Err_0@ == f,
            },
            r is Ok ==> {
                &&& walk_inv(self.registry@, final(marks)@, strings_view(final(resolved)@))
                &&& forall|j: int| 0 <= j < final(marks)@.len() ==> #[trigger] final(marks)@[j] != Mark::Active
                &&& fresh_count(final(marks)@) <= fresh_count(old(marks)@)
                &&& extends(strings_view(old(resolved)@), strings_view(final(resolved)@))
                &&& strings_view(final(resolved)@).contains(id@)
            },
            r matches Err(e) ==> (e@ matches ResolveFailure::ModuleNotFound(x) ==> lookup(
                self.registry@,
                x,
            ) is None && reachable(self.registry@, ids@, x)),
            r matches Err(e) ==> !(e@ is Conflict),
            r matches Err(e) ==> (e@ matches ResolveFailure::CircularDependency(x) ==> on_cycle(
                self.registry@,
                x,
            )),
    {
        let ghost reg = self.registry@;
        let found = self.registry.position(id);
        let k = match found {
            None => {
                assert(is_dependency_path(reg, path@));
                return Err(ResolveError::ModuleNotFound(id.clone()));
            },
            Some(k) => k,
        };
        proof {
            lemma_find_is_match(reg, id@, 0);
            lemma_find_distinct(reg, k as int);
        }
        let mark = marks[k];
        if mark == Mark::Done {
            return Ok(());
        }
        if mark == Mark::Active {
            assert(old(marks)@[k as int] != Mark::Active);
            return Err(ResolveError::CircularDependency(id.clone()));
        }
        let ghost m0 = marks@;
        let ghost o0 = strings_view(resolved@);
        proof {
            lemma_fresh_count_update(marks@, k as int, Mark::Active);
            assert(path@.last() == reg[k as int].id@);
        }
        marks.set(k, Mark::Active);
        proof {
            let m1 = marks@;
            assert forall|j: int| 0 <= j < m1.len() && #[trigger] m1[j] == Mark::Done implies o0.contains(reg[j].id@) by {
                assert(m0[j] == Mark::Done);
            }
            assert forall|t: int|
                0 <= t < o0.len() implies (#[trigger] find(reg, o0[t], 0) matches Some(kk) && 0 <= kk
                < m1.len() && m1[kk] == Mark::Done) by {
                let kk = find(reg, o0[t], 0)->Some_0;
                assert(m0[kk] == Mark::Done);
            }
            assert(visit_spec(reg, id@, m0, o0) == (match visit_all_spec(reg, deps_at(reg, k as int), 0, m1, o0) {
                Ok(w) => Ok((w.0.update(k as int, Mark::Done), w.1.push(id@))),
                Err(f) => Err(f),
            }));
            let fs = seq![(k as int, 0int)];
            assert(fs.drop_last() =~= Seq::<(int, int)>::empty());
            assert(fs.last() == (k as int, 0int));
            match visit_all_spec(reg, deps_at(reg, k as int), 0, m1, o0) {
                Ok(w) => {
                    assert(resume(reg, fs, m1, o0) == resume(
                        reg,
                        fs.drop_last(),
                        w.0.update(k as int, Mark::Done),
                        w.1.push(reg[k as int].id@),
                    ));
                },
                Err(e) => {},
            }
            assert(resume(reg, fs, m1, o0) == visit_spec(reg, id@, m0, o0));
            assert(reachable(reg, ids@, reg[k as int].id@));
        }
        let mut stack: Vec<(usize, usize)> = Vec::new();
        stack.push((k, 0));
        proof {
            let fs = frames_of(stack@);
            assert(fs =~= seq![(k as int, 0int)]);
            assert(fs[0] == (k as int, 0int));
            assert(in_frames(fs, k as int));
            assert forall|j: int| 0 <= j < marks@.len() implies (#[trigger] marks@[j] == Mark::Active) == in_frames(
                fs,
                j,
            ) by {
                if in_frames(fs, j) {
                    let t = choose|t: int| 0 <= t < fs.len() && (#[trigger] fs[t]).0 == j;
                    assert(t == 0);
                }
                if j != k {
                    assert(marks@[j] == m0[j]);
                }
            }
        }
        while stack.len() > 0
            invariant
                reg == self.registry@,
                ids_distinct(reg),
                marks@.len() == reg.len(),
                walk_inv(reg, marks@, strings_view(resolved@)),
                frames_wf(reg, frames_of(stack@)),
                active_frames(marks@, frames_of(stack@)),
                frames_linked(reg, frames_of(stack@), strings_view(resolved@)),
                forall|t: int|
                    0 <= t < stack@.len() ==> reachable(reg, ids@, reg[#[trigger] frames_of(stack@)[t].0].id@),
                resume(reg, frames_of(stack@), marks@, strings_view(resolved@)) == visit_spec(reg, id@, m0, o0),
                extends(o0, strings_view(resolved@)),
                m0 == old(marks)@,
                o0 == strings_view(old(resolved)@),
                stack@.len() > 0 ==> frames_of(stack@)[0].0 == k as int,
                stack@.len() == 0 ==> strings_view(resolved@).contains(id@),
                reg[k as int].id@ == id@,
            decreases fresh_count(marks@), work(reg, frames_of(stack@)),
        {
            let last = stack.len() - 1;
            let (top, pos) = stack[last];
            let ghost fs = frames_of(stack@);
            let ghost out = strings_view(resolved@);
            let ghost m = marks@;
            let module = &self.registry.modules[top];
            let ghost deps = deps_at(reg, top as int);
            assert(deps == strings_view(module.dependencies@));
            proof {
                assert(fs[fs.len() - 1] == (top as int, pos as int));
                lemma_find_distinct(reg, top as int);
            }
            if pos < module.dependencies.len() {
                let dep = &module.dependencies[pos];
                assert(dep@ == deps[pos as int]);
                assert(strings_view(reg[top as int].dependencies@).contains(dep@));
                let found = self.registry.position(dep);
                let j = match found {
                    None => {
                        proof {
                            assert(visit_spec(reg, dep@, m, out) == Err::<
                                (Seq<Mark>, Seq<Seq<char>>),
                                ResolveFailure,
                            >(ResolveFailure::ModuleNotFound(dep@)));
                            lemma_resume_step_error(reg, fs, m, out);
                            lemma_reach_dep(reg, ids@, reg[top as int].id@, dep@, top as int);
                        }
                        return Err(ResolveError::ModuleNotFound(dep.clone()));
                    },
                    Some(j) => j,
                };
                proof {
                    lemma_find_is_match(reg, dep@, 0);
                }
                let dep_mark = marks[j];
                if dep_mark == Mark::Active {
                    proof {
                        lemma_resume_step_error(reg, fs, m, out);
                        lemma_active_dep_on_cycle(reg, fs, m, out, j as int);
                    }
                    return Err(ResolveError::CircularDependency(dep.clone()));
                }
                if dep_mark == Mark::Done {
                    stack.set(last, (top, pos + 1));
                    proof {
                        lemma_resume_advance(reg, fs, m, out);
                        lemma_frames_advance(reg, ids@, fs, m, out);
                        assert(frames_of(stack@) =~= fs.update(fs.len() - 1, (top as int, pos + 1)));
                    }
                } else {
                    proof {
                        lemma_fresh_count_update(marks@, j as int, Mark::Active);
                        lemma_reach_dep(reg, ids@, reg[top as int].id@, dep@, top as int);
                    }
                    marks.set(j, Mark::Active);
                    stack.set(last, (top, pos + 1));
                    stack.push((j, 0));
                    proof {
                        let f2 = fs.update(fs.len() - 1, (top as int, pos + 1)).push((j as int, 0int));
                        assert(frames_of(stack@) =~= f2);
                        lemma_resume_push(reg, fs, m, out, j as int);
                        lemma_frames_push(reg, ids@, fs, m, out, j as int);
                    }
                }
            } else {
                let ghost before = resolved@;
                let mid = self.registry.modules[top].id.clone();
                stack.pop();
                marks.set(top, Mark::Done);
                resolved.push(mid);
                proof {
                    assert(frames_of(stack@) =~= fs.drop_last());
                    assert(strings_view(resolved@) =~= out.push(reg[top as int].id@));
                    lemma_resume_pop(reg, fs, m, out);
                    lemma_frames_pop(reg, ids@, fs, m, out);
                    if fs.len() == 1 {
                        assert(fs[0].0 == k as int);
                        assert(strings_view(resolved@)[out.len() as int] == id@);
                    }
                }
            }
        }
        proof {
            lemma_visit_monotone(reg, id@, m0, o0);
            assert forall|j: int| 0 <= j < marks@.len() implies #[trigger] marks@[j] != Mark::Active by {
                assert(!in_frames(frames_of(stack@), j));
            }
        }
        Ok(())
    }
}

} // verus!
