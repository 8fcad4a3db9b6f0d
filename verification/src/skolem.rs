//! Bookkeeping for matching a Skolemized formula against its parent: the
//! step budget and the check of explicit `skolemize(...)` metadata.
use vstd::prelude::*;


verus! {

/// Function symbols a Skolem witness may and must mention.
#[derive(Clone)]
pub struct SkolemScope {
    pub allowed: Vec<String>,
    pub required: Vec<String>,
}

/// Explicit metadata of a Skolemization step: existential `variable` is
/// witnessed by `symbol` applied to `arguments`.
#[derive(Clone)]
pub struct SkolemAnnotation {
    pub variable: String,
    pub symbol: String,
    pub arguments: Vec<String>,
}

/// State of one Skolemization match. Name sets are lists of names, and
/// name-keyed maps are association lists that look a name up by its first
/// entry.
pub struct SkolemMatch {
    pub fresh_symbols: Vec<String>,
    pub used_symbols: Vec<String>,
    pub universal_map: Vec<(String, String)>,
    pub universal_history: Vec<(String, String)>,
    pub existential_terms: Vec<(String, String)>,
    pub witness_owners: Vec<(String, String)>,
    pub active_existentials: Vec<(String, SkolemScope)>,
    pub active_universals: Vec<String>,
    pub steps: usize,
    pub step_limit: usize,
    pub exhausted: bool,
    pub annotation: Option<SkolemAnnotation>,
    pub existential_witnesses: Vec<(String, (String, Vec<String>))>,
}

/// No key occurs twice among the entries.
pub open spec fn unique_keys<T>(entries: Seq<(String, T)>) -> bool {
    forall|i: int, j: int| 0 <= i < j < entries.len() ==> entries[i].0@ != entries[j].0@
}

/// No name occurs twice in the list.
pub open spec fn unique_names(names: Seq<String>) -> bool {
    forall|i: int, j: int| 0 <= i < j < names.len() ==> names[i]@ != names[j]@
}

impl SkolemMatch {
    /// The name sets hold each name once and the name-keyed maps hold each
    /// key once, as the sets and maps they stand for.
    pub open spec fn wf(&self) -> bool {
        &&& unique_names(self.fresh_symbols@)
        &&& unique_names(self.used_symbols@)
        &&& unique_keys(self.universal_map@)
        &&& unique_keys(self.universal_history@)
        &&& unique_keys(self.existential_terms@)
        &&& unique_keys(self.witness_owners@)
        &&& unique_keys(self.active_existentials@)
        &&& unique_keys(self.existential_witnesses@)
    }
}

/// The value of the first entry for `key`.
pub open spec fn lookup<T>(entries: Seq<(String, T)>, key: Seq<char>) -> Option<T>
    decreases entries.len(),
{
    if entries.len() == 0 {
        None
    } else if entries[0].0@ == key {
        Some(entries[0].1)
    } else {
        lookup(entries.skip(1), key)
    }
}

pub open spec fn strings_view(v: Seq<String>) -> Seq<Seq<char>> {
    v.map_values(|s: String| s@)
}

/// An argument name renamed through the universal-variable history.
pub open spec fn history_name(history: Seq<(String, String)>, arg: String) -> Seq<char> {
    match lookup(history, arg@) {
        Some(renamed) => renamed@,
        None => arg@,
    }
}

/// The recorded witness of the annotated variable uses the annotated symbol
/// and arguments, either as written or renamed through the history.
pub open spec fn annotation_consistent(
    annotation: SkolemAnnotation,
    witnesses: Seq<(String, (String, Vec<String>))>,
    history: Seq<(String, String)>,
) -> bool {
    match lookup(witnesses, annotation.variable@) {
        None => false,
        Some((symbol, arguments)) => {
            &&& symbol@ == annotation.symbol@
            &&& (strings_view(arguments@) == strings_view(annotation.arguments@)
                || strings_view(arguments@) == annotation.arguments@.map_values(
                |a: String| history_name(history, a),
            ))
        },
    }
}

fn find_entry<T>(entries: &Vec<(String, T)>, key: &String) -> (r: Option<usize>)
    ensures
        match lookup(entries@, key@) {
            Some(v) => r matches Some(i) && i < entries@.len() && entries@[i as int].1 == v,
            None => r is None,
        },
{
    let mut i: usize = 0;
    assert(entries@.skip(0) =~= entries@);
    while i < entries.len()
        invariant
            0 <= i <= entries.len(),
            lookup(entries@, key@) == lookup(entries@.skip(i as int), key@),
        decreases entries.len() - i,
    {
        assert(entries@.skip(i as int)[0] == entries@[i as int]);
        if entries[i].0 == *key {
            return Some(i);
        }
        assert(entries@.skip(i as int).skip(1) =~= entries@.skip(i as int + 1));
        i = i + 1;
    }
    None
}

fn same_strings(a: &Vec<String>, b: &Vec<String>) -> (r: bool)
    ensures
        r == (strings_view(a@) == strings_view(b@)),
{
    if a.len() != b.len() {
        assert(strings_view(a@).len() != strings_view(b@).len());
        return false;
    }
    let mut i: usize = 0;
    while i < a.len()
        invariant
            0 <= i <= a.len(),
            a.len() == b.len(),
            forall|k: int| 0 <= k < i ==> a@[k]@ == b@[k]@,
        decreases a.len() - i,
    {
        if a[i] != b[i] {
            assert(strings_view(a@)[i as int] != strings_view(b@)[i as int]);
            return false;
        }
        i = i + 1;
    }
    assert(strings_view(a@) =~= strings_view(b@));
    true
}

impl SkolemMatch {
    /// A fresh match over the given fresh symbols and step budget.
    pub fn new(fresh_symbols: Vec<String>, step_limit: usize) -> (r: Self)
        requires
            unique_names(fresh_symbols@),
        ensures
            r.wf(),
            r.fresh_symbols == fresh_symbols,
            r.used_symbols@.len() == 0,
            r.universal_map@.len() == 0,
            r.universal_history@.len() == 0,
            r.existential_terms@.len() == 0,
            r.witness_owners@.len() == 0,
            r.active_existentials@.len() == 0,
            r.active_universals@.len() == 0,
            r.steps == 0,
            r.step_limit == step_limit,
            !r.exhausted,
            r.annotation is None,
            r.existential_witnesses@.len() == 0,
    {
        SkolemMatch {
            fresh_symbols,
            used_symbols: Vec::new(),
            universal_map: Vec::new(),
            universal_history: Vec::new(),
            existential_terms: Vec::new(),
            witness_owners: Vec::new(),
            active_existentials: Vec::new(),
            active_universals: Vec::new(),
            steps: 0,
            step_limit,
            exhausted: false,
            annotation: None,
            existential_witnesses: Vec::new(),
        }
    }

    /// Spends one matching step: `false` (and the state marked exhausted)
    /// once the budget is used up.
    pub fn charge(&mut self) -> (r: bool)
        ensures
            old(self).wf() ==> final(self).wf(),
            r == (old(self).steps < old(self).step_limit),
            r ==> final(self).steps == old(self).steps + 1 && final(self).exhausted == old(self).exhausted,
            !r ==> final(self).steps == old(self).steps && final(self).exhausted,
            final(self).step_limit == old(self).step_limit,
            final(self).existential_witnesses == old(self).existential_witnesses,
            final(self).universal_history == old(self).universal_history,
    {
        if self.steps >= self.step_limit {
            self.exhausted = true;
            false
        } else {
            self.steps = self.steps + 1;
            true
        }
    }
}

/// Whether `skolemize(...)` metadata agrees with the witness the match
/// recorded for the annotated variable.
pub fn validate_skolem_annotation(annotation: &SkolemAnnotation, state: &SkolemMatch) -> (r: bool)
    ensures
        r == annotation_consistent(*annotation, state.existential_witnesses@, state.universal_history@),
{
    let index = match find_entry(&state.existential_witnesses, &annotation.variable) {
        Some(i) => i,
        None => {
            return false;
        },
    };
    let witness = &state.existential_witnesses[index].1;
    if witness.0 != annotation.symbol {
        return false;
    }
    if same_strings(&witness.1, &annotation.arguments) {
        return true;
    }
    let mut mapped: Vec<String> = Vec::new();
    let mut i: usize = 0;
    while i < annotation.arguments.len()
        invariant
            0 <= i <= annotation.arguments.len(),
            mapped@.len() == i,
            forall|k: int| 0 <= k < i ==> #[trigger] mapped@[k]@ == history_name(
                state.universal_history@,
                annotation.arguments@[k],
            ),
        decreases annotation.arguments.len() - i,
    {
        let arg = &annotation.arguments[i];
        let name = match find_entry(&state.universal_history, arg) {
            Some(j) => state.universal_history[j].1.clone(),
            None => arg.clone(),
        };
        mapped.push(name);
        i = i + 1;
    }
    let same = same_strings(&witness.1, &mapped);
    assert(strings_view(mapped@) =~= annotation.arguments@.map_values(
        |a: String| history_name(state.universal_history@, a),
    ));
    same
}

} // verus!
