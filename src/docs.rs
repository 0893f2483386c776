use vstd::prelude::*;
use crate::text::{chars_of, push_str};

verus! {

// ---------------------------------------------------------------------------
// Data
// ---------------------------------------------------------------------------

/// A function of a contract as type analysis describes it.
#[derive(Clone, Debug)]
pub struct FunctionSignature {
    pub name: String,
    pub input_type: String,
    pub output_type: String,
    pub signature: String,
}

/// What documentation generation reads of a type-checked contract.
#[derive(Clone, Debug)]
pub struct ContractInterface {
    pub public_functions: Vec<FunctionSignature>,
    pub read_only_functions: Vec<FunctionSignature>,
    /// Each defined constant or data variable: its name and the spelling of its type.
    pub variables: Vec<(String, String)>,
}

/// The documentation of one function.
#[derive(Clone, Debug)]
pub struct FunctionRef {
    pub name: String,
    pub input_type: String,
    pub output_type: String,
    pub signature: String,
    pub description: String,
}

/// The documentation of one error constant (a constant whose name starts with `ERR_`).
#[derive(Clone, Debug)]
pub struct ErrorCode {
    pub name: String,
    pub value_type: String,
    pub value: String,
}

/// The documentation of a whole contract.
#[derive(Clone, Debug)]
pub struct ContractRef {
    pub public_functions: Vec<FunctionRef>,
    pub read_only_functions: Vec<FunctionRef>,
    pub error_codes: Vec<ErrorCode>,
}

/// Hand-written material for documenting one contract.
#[derive(Clone, Debug)]
pub struct ContractSupportDocs {
    /// A description for each function name; the first entry for a name counts.
    pub descriptions: Vec<(String, String)>,
    /// Functions left out of the documentation.
    pub skip_func_display: Vec<String>,
}

/// Why documentation could not be produced.
#[derive(Clone, Debug)]
pub enum DocsError {
    /// A displayed function has no description.
    MissingDescription(String),
    /// An error constant has no evaluated value.
    MissingErrorValue(String),
    /// A name has two entries where one is expected.
    DuplicateName(String),
}

pub type FunctionDoc = (Seq<char>, Seq<char>, Seq<char>, Seq<char>, Seq<char>);

pub type ErrorDoc = (Seq<char>, Seq<char>, Seq<char>);

pub type ContractDoc = (Seq<FunctionDoc>, Seq<FunctionDoc>, Seq<ErrorDoc>);

impl View for FunctionRef {
    type V = FunctionDoc;

    open spec fn view(&self) -> FunctionDoc {
        (self.name@, self.input_type@, self.output_type@, self.signature@, self.description@)
    }
}

impl View for ErrorCode {
    type V = ErrorDoc;

    open spec fn view(&self) -> ErrorDoc {
        (self.name@, self.value_type@, self.value@)
    }
}

impl View for ContractRef {
    type V = ContractDoc;

    open spec fn view(&self) -> ContractDoc {
        (
            self.public_functions@.map_values(|f: FunctionRef| f@),
            self.read_only_functions@.map_values(|f: FunctionRef| f@),
            self.error_codes@.map_values(|e: ErrorCode| e@),
        )
    }
}

// ---------------------------------------------------------------------------
// Keyed lists
// ---------------------------------------------------------------------------

/// Some entry of `e` has the key `n`.
pub open spec fn has_key<V>(e: Seq<(String, V)>, n: Seq<char>) -> bool {
    exists|i: int| 0 <= i < e.len() && #[trigger] e[i].0@ == n
}

/// `i` is the first entry of `e` with the key `n`.
pub open spec fn is_first_key<V>(e: Seq<(String, V)>, n: Seq<char>, i: int) -> bool {
    &&& 0 <= i < e.len()
    &&& e[i].0@ == n
    &&& forall|j: int| 0 <= j < i ==> #[trigger] e[j].0@ != n
}

/// The position of the first entry of `e` with the key `n` (meaningful where `has_key`).
pub open spec fn first_key<V>(e: Seq<(String, V)>, n: Seq<char>) -> int {
    choose|i: int| is_first_key(e, n, i)
}

/// `n` is one of `names`.
pub open spec fn is_listed(names: Seq<String>, n: Seq<char>) -> bool {
    exists|i: int| 0 <= i < names.len() && #[trigger] names[i]@ == n
}

pub proof fn lemma_first_key_unique<V>(e: Seq<(String, V)>, n: Seq<char>, i: int)
    requires
        is_first_key(e, n, i),
    ensures
        has_key(e, n),
        first_key(e, n) == i,
{
    let k = first_key(e, n);
    assert(is_first_key(e, n, k));
    if k < i {
        assert(e[k].0@ != n);
    } else if i < k {
        assert(e[i].0@ != n);
    }
}

/// The position of the first entry with the key `n`.
pub fn find_key<V>(e: &Vec<(String, V)>, n: &String) -> (r: Option<usize>)
    ensures
        r is Some <==> has_key(e@, n@),
        r is Some ==> is_first_key(e@, n@, r->0 as int) && first_key(e@, n@) == r->0,
{
    let mut i: usize = 0;
    while i < e.len()
        invariant
            i <= e@.len(),
            forall|j: int| 0 <= j < i ==> #[trigger] e@[j].0@ != n@,
        decreases e@.len() - i,
    {
        if e[i].0 == *n {
            proof {
                lemma_first_key_unique(e@, n@, i as int);
            }
            return Some(i);
        }
        i = i + 1;
    }
    None
}

/// Whether `n` is one of `names`.
pub fn contains_name(names: &Vec<String>, n: &String) -> (r: bool)
    ensures
        r == is_listed(names@, n@),
{
    let mut i: usize = 0;
    while i < names.len()
        invariant
            i <= names@.len(),
            forall|j: int| 0 <= j < i ==> #[trigger] names@[j]@ != n@,
        decreases names@.len() - i,
    {
        if names[i] == *n {
            return true;
        }
        i = i + 1;
    }
    false
}

/// No two entries of `e` share a key, as in a map.
pub open spec fn keys_unique<V>(e: Seq<(String, V)>) -> bool {
    forall|i: int, j: int| 0 <= i < j < e.len() ==> #[trigger] e[i].0@ != #[trigger] e[j].0@
}

/// A key that two entries of `e` share, if any.
pub fn find_duplicate_key<V>(e: &Vec<(String, V)>) -> (r: Option<usize>)
    ensures
        r is None <==> keys_unique(e@),
        r matches Some(i) ==> i < e@.len() && exists|j: int| 0 <= j < e@.len() && j != i && e@[j].0@ == e@[i as int].0@,
{
    let mut i: usize = 0;
    while i < e.len()
        invariant
            i <= e@.len(),
            forall|a: int, b: int| 0 <= a < b < e@.len() && a < i ==> #[trigger] e@[a].0@ != #[trigger] e@[b].0@,
        decreases e@.len() - i,
    {
        let mut j: usize = i + 1;
        while j < e.len()
            invariant
                i < e@.len(),
                i + 1 <= j <= e@.len(),
                forall|a: int, b: int| 0 <= a < b < e@.len() && a < i ==> #[trigger] e@[a].0@ != #[trigger] e@[b].0@,
                forall|b: int| i < b < j ==> e@[i as int].0@ != #[trigger] e@[b].0@,
            decreases e@.len() - j,
        {
            if e[i].0 == e[j].0 {
                return Some(i);
            }
            j = j + 1;
        }
        i = i + 1;
    }
    None
}

// ---------------------------------------------------------------------------
// Function documentation
// ---------------------------------------------------------------------------

/// The description that `docs` gives to the function `n`.
pub open spec fn description_of(docs: ContractSupportDocs, n: Seq<char>) -> Seq<char> {
    docs.descriptions@[first_key(docs.descriptions@, n)].1@
}

/// `f` is left out of the documentation.
pub open spec fn is_hidden(docs: ContractSupportDocs, f: FunctionSignature) -> bool {
    is_listed(docs.skip_func_display@, f.name@)
}

/// Every function of `sigs` that is displayed has a description.
pub open spec fn all_described(sigs: Seq<FunctionSignature>, docs: ContractSupportDocs) -> bool {
    forall|i: int|
        0 <= i < sigs.len() && !is_hidden(docs, #[trigger] sigs[i]) ==> has_key(
            docs.descriptions@,
            sigs[i].name@,
        )
}

/// The documentation of one displayed function.
pub open spec fn function_doc(f: FunctionSignature, docs: ContractSupportDocs) -> FunctionDoc {
    (f.name@, f.input_type@, f.output_type@, f.signature@, description_of(docs, f.name@))
}

/// The documentation of the displayed functions of `sigs`, in their order.
pub open spec fn function_docs(sigs: Seq<FunctionSignature>, docs: ContractSupportDocs) -> Seq<
    FunctionDoc,
>
    decreases sigs.len(),
{
    if sigs.len() == 0 {
        Seq::empty()
    } else {
        let prev = function_docs(sigs.drop_last(), docs);
        if is_hidden(docs, sigs.last()) {
            prev
        } else {
            prev.push(function_doc(sigs.last(), docs))
        }
    }
}

fn clone_signature(f: &FunctionSignature) -> (r: FunctionSignature)
    ensures
        r.name@ == f.name@,
        r.input_type@ == f.input_type@,
        r.output_type@ == f.output_type@,
        r.signature@ == f.signature@,
{
    FunctionSignature {
        name: f.name.clone(),
        input_type: f.input_type.clone(),
        output_type: f.output_type.clone(),
        signature: f.signature.clone(),
    }
}

/// Documents the displayed functions of `sigs`, in their order, or names a
/// displayed function without a description.
pub fn function_refs(sigs: &Vec<FunctionSignature>, docs: &ContractSupportDocs) -> (r: Result<
    Vec<FunctionRef>,
    DocsError,
>)
    ensures
        r is Ok <==> all_described(sigs@, *docs),
        r matches Ok(v) ==> v@.map_values(|f: FunctionRef| f@) == function_docs(sigs@, *docs),
        r matches Err(e) ==> (e matches DocsError::MissingDescription(n) && exists|i: int|
            0 <= i < sigs@.len() && #[trigger] sigs@[i].name@ == n@ && !is_hidden(*docs, sigs@[i])
                && !has_key(docs.descriptions@, n@)),
{
    let mut out: Vec<FunctionRef> = Vec::new();
    let mut i: usize = 0;
    while i < sigs.len()
        invariant
            i <= sigs@.len(),
            all_described(sigs@.take(i as int), *docs),
            out@.map_values(|f: FunctionRef| f@) == function_docs(sigs@.take(i as int), *docs),
        decreases sigs@.len() - i,
    {
        let f = &sigs[i];
        let ghost prefix = sigs@.take(i as int + 1);
        assert(prefix.drop_last() =~= sigs@.take(i as int));
        assert(prefix.last() == sigs@[i as int]);
        if !contains_name(&docs.skip_func_display, &f.name) {
            match find_key(&docs.descriptions, &f.name) {
                None => {
                    return Err(DocsError::MissingDescription(f.name.clone()));
                },
                Some(k) => {
                    let g = clone_signature(f);
                    out.push(
                        FunctionRef {
                            name: g.name,
                            input_type: g.input_type,
                            output_type: g.output_type,
                            signature: g.signature,
                            description: docs.descriptions[k].1.clone(),
                        },
                    );
                },
            }
        }
        i = i + 1;
        assert(out@.map_values(|f: FunctionRef| f@) =~= function_docs(prefix, *docs));
        assert forall|j: int|
            0 <= j < prefix.len() && !is_hidden(*docs, #[trigger] prefix[j]) implies has_key(
            docs.descriptions@,
            prefix[j].name@,
        ) by {
            if j < i - 1 {
                assert(prefix[j] == sigs@.take(i - 1)[j]);
            }
        }
    }
    assert(sigs@.take(i as int) =~= sigs@);
    Ok(out)
}

// ---------------------------------------------------------------------------
// Error constants
// ---------------------------------------------------------------------------

/// `n` names an error constant: it starts with `ERR_`.
pub open spec fn is_error_name(n: Seq<char>) -> bool {
    n.len() >= 4 && n[0] == 'E' && n[1] == 'R' && n[2] == 'R' && n[3] == '_'
}

/// Whether `n` starts with `ERR_`.
pub fn is_error_constant(n: &String) -> (r: bool)
    ensures
        r == is_error_name(n@),
{
    let cs = chars_of(n.as_str());
    cs.len() >= 4 && cs[0] == 'E' && cs[1] == 'R' && cs[2] == 'R' && cs[3] == '_'
}

/// Every error constant among `vars` has an entry in `values`.
pub open spec fn all_valued(vars: Seq<(String, String)>, values: Seq<(String, String)>) -> bool {
    forall|i: int|
        0 <= i < vars.len() && is_error_name(#[trigger] vars[i].0@) ==> has_key(values, vars[i].0@)
}

/// The documentation of the error constants among `vars`, in their order,
/// each with the first value that `values` gives for its name.
pub open spec fn error_docs(vars: Seq<(String, String)>, values: Seq<(String, String)>) -> Seq<
    ErrorDoc,
>
    decreases vars.len(),
{
    if vars.len() == 0 {
        Seq::empty()
    } else {
        let prev = error_docs(vars.drop_last(), values);
        let v = vars.last();
        if is_error_name(v.0@) {
            prev.push((v.0@, v.1@, values[first_key(values, v.0@)].1@))
        } else {
            prev
        }
    }
}

/// Documents the error constants among `vars`, in their order, or names one
/// that `values` gives no value for.
pub fn error_codes(vars: &Vec<(String, String)>, values: &Vec<(String, String)>) -> (r: Result<
    Vec<ErrorCode>,
    DocsError,
>)
    ensures
        r is Ok <==> all_valued(vars@, values@),
        r matches Ok(v) ==> v@.map_values(|e: ErrorCode| e@) == error_docs(vars@, values@),
        r matches Err(e) ==> (e matches DocsError::MissingErrorValue(n) && exists|i: int|
            0 <= i < vars@.len() && #[trigger] vars@[i].0@ == n@ && is_error_name(n@) && !has_key(
                values@,
                n@,
            )),
{
    let mut out: Vec<ErrorCode> = Vec::new();
    let mut i: usize = 0;
    while i < vars.len()
        invariant
            i <= vars@.len(),
            all_valued(vars@.take(i as int), values@),
            out@.map_values(|e: ErrorCode| e@) == error_docs(vars@.take(i as int), values@),
        decreases vars@.len() - i,
    {
        let v = &vars[i];
        let ghost prefix = vars@.take(i as int + 1);
        assert(prefix.drop_last() =~= vars@.take(i as int));
        assert(prefix.last() == vars@[i as int]);
        if is_error_constant(&v.0) {
            match find_key(values, &v.0) {
                None => {
                    return Err(DocsError::MissingErrorValue(v.0.clone()));
                },
                Some(k) => {
                    out.push(
                        ErrorCode {
                            name: v.0.clone(),
                            value_type: v.1.clone(),
                            value: values[k].1.clone(),
                        },
                    );
                },
            }
        }
        i = i + 1;
        assert(out@.map_values(|e: ErrorCode| e@) =~= error_docs(prefix, values@));
        assert forall|j: int|
            0 <= j < prefix.len() && is_error_name(#[trigger] prefix[j].0@) implies has_key(
            values@,
            prefix[j].0@,
        ) by {
            if j < i - 1 {
                assert(prefix[j] == vars@.take(i - 1)[j]);
            }
        }
    }
    assert(vars@.take(i as int) =~= vars@);
    Ok(out)
}

/// `name: name`, one entry of the tuple that collects the error constants.
pub open spec fn tuple_entry(n: Seq<char>) -> Seq<char> {
    n + ": "@ + n
}

/// The entries for the error constants among `vars`, separated by `, `.
pub open spec fn tuple_entries(vars: Seq<(String, String)>) -> Seq<char>
    decreases vars.len(),
{
    if vars.len() == 0 {
        Seq::empty()
    } else {
        let prev = tuple_entries(vars.drop_last());
        let n = vars.last().0@;
        if !is_error_name(n) {
            prev
        } else if prev.len() == 0 {
            tuple_entry(n)
        } else {
            prev + ", "@ + tuple_entry(n)
        }
    }
}

/// The program that evaluates every error constant of `content` at once:
/// the contract followed by a tuple `{ ERR_A: ERR_A, ... }`.
pub fn error_code_program(content: &str, vars: &Vec<(String, String)>) -> (r: String)
    ensures
        r@ == content@ + "\n { "@ + tuple_entries(vars@) + " }"@,
{
    let mut names = String::new();
    let mut any = false;
    let mut i: usize = 0;
    while i < vars.len()
        invariant
            i <= vars@.len(),
            names@ == tuple_entries(vars@.take(i as int)),
            any <==> names@.len() > 0,
        decreases vars@.len() - i,
    {
        let ghost prefix = vars@.take(i as int + 1);
        assert(prefix.drop_last() =~= vars@.take(i as int));
        assert(prefix.last() == vars@[i as int]);
        let n = &vars[i].0;
        if is_error_constant(n) {
            if any {
                push_str(&mut names, ", ");
            }
            push_str(&mut names, n.as_str());
            push_str(&mut names, ": ");
            push_str(&mut names, n.as_str());
            any = true;
            assert(names@ =~= tuple_entries(prefix));
        }
        i = i + 1;
    }
    assert(vars@.take(i as int) =~= vars@);
    let mut r = String::new();
    push_str(&mut r, content);
    push_str(&mut r, "\n { ");
    push_str(&mut r, names.as_str());
    push_str(&mut r, " }");
    assert(r@ =~= content@ + "\n { "@ + tuple_entries(vars@) + " }"@);
    r
}

// ---------------------------------------------------------------------------
// Contracts
// ---------------------------------------------------------------------------

/// A type-checked contract with the values of its error constants.
pub struct AnalyzedContract {
    pub name: String,
    pub interface: ContractInterface,
    /// The value of each error constant, by name, as the evaluated tuple spells it.
    pub error_values: Vec<(String, String)>,
}

/// Everything that the documentation of a contract needs is at hand.
pub open spec fn docs_ready(
    c: ContractInterface,
    values: Seq<(String, String)>,
    docs: ContractSupportDocs,
) -> bool {
    &&& keys_unique(docs.descriptions@)
    &&& keys_unique(values)
    &&& all_described(c.public_functions@, docs)
    &&& all_described(c.read_only_functions@, docs)
    &&& all_valued(c.variables@, values)
}

/// The documentation of a contract.
pub open spec fn contract_doc(
    c: ContractInterface,
    values: Seq<(String, String)>,
    docs: ContractSupportDocs,
) -> ContractDoc {
    (
        function_docs(c.public_functions@, docs),
        function_docs(c.read_only_functions@, docs),
        error_docs(c.variables@, values),
    )
}

/// Whether a contract can be documented: `Ok` where descriptions and error
/// values have one entry per name, every displayed function has a
/// description and every error constant a value; otherwise the first gap,
/// looking at duplicate names, public functions, read-only ones, then
/// constants.
pub fn check_docs(
    interface: &ContractInterface,
    error_values: &Vec<(String, String)>,
    support_docs: &ContractSupportDocs,
) -> (r: Result<(), DocsError>)
    ensures
        r is Ok <==> docs_ready(*interface, error_values@, *support_docs),
        r matches Err(DocsError::MissingDescription(n)) ==> (exists|i: int|
            0 <= i < interface.public_functions@.len() && #[trigger] interface.public_functions@[i].name@
                == n@ && !is_hidden(*support_docs, interface.public_functions@[i]) && !has_key(
                support_docs.descriptions@,
                n@,
            )) || (all_described(interface.public_functions@, *support_docs) && exists|i: int|
            0 <= i < interface.read_only_functions@.len()
                && #[trigger] interface.read_only_functions@[i].name@ == n@ && !is_hidden(
                *support_docs,
                interface.read_only_functions@[i],
            ) && !has_key(support_docs.descriptions@, n@)),
        r matches Err(DocsError::DuplicateName(n)) ==> (!keys_unique(support_docs.descriptions@)
            && has_key(support_docs.descriptions@, n@)) || (keys_unique(support_docs.descriptions@)
            && !keys_unique(error_values@) && has_key(error_values@, n@)),
        r matches Err(DocsError::MissingErrorValue(n)) ==> all_described(
            interface.public_functions@,
            *support_docs,
        ) && all_described(interface.read_only_functions@, *support_docs) && exists|i: int|
            0 <= i < interface.variables@.len() && #[trigger] interface.variables@[i].0@ == n@
                && is_error_name(n@) && !has_key(error_values@, n@),
{
    if let Some(i) = find_duplicate_key(&support_docs.descriptions) {
        return Err(DocsError::DuplicateName(support_docs.descriptions[i].0.clone()));
    }
    if let Some(i) = find_duplicate_key(error_values) {
        return Err(DocsError::DuplicateName(error_values[i].0.clone()));
    }
    function_refs(&interface.public_functions, support_docs)?;
    function_refs(&interface.read_only_functions, support_docs)?;
    error_codes(&interface.variables, error_values)?;
    Ok(())
}

/// Documents a contract: its displayed public and read-only functions, and its
/// error constants with their values. Every displayed function must have a
/// description and every error constant a value (see `check_docs`).
pub fn make_docs(
    interface: &ContractInterface,
    error_values: &Vec<(String, String)>,
    support_docs: &ContractSupportDocs,
) -> (r: ContractRef)
    requires
        docs_ready(*interface, error_values@, *support_docs),
    ensures
        r@ == contract_doc(*interface, error_values@, *support_docs),
{
    let public_functions = match function_refs(&interface.public_functions, support_docs) {
        Ok(v) => v,
        Err(_) => Vec::new(),
    };
    let read_only_functions = match function_refs(&interface.read_only_functions, support_docs) {
        Ok(v) => v,
        Err(_) => Vec::new(),
    };
    let error_codes = match error_codes(&interface.variables, error_values) {
        Ok(v) => v,
        Err(_) => Vec::new(),
    };
    ContractRef { public_functions, read_only_functions, error_codes }
}

/// The support material that `support` gives for the contract `n`.
pub open spec fn support_for(support: Seq<(String, ContractSupportDocs)>, n: Seq<char>) -> ContractSupportDocs {
    support[first_key(support, n)].1
}

/// Every contract that has support material can be documented.
pub open spec fn all_ready(
    cs: Seq<AnalyzedContract>,
    support: Seq<(String, ContractSupportDocs)>,
) -> bool {
    forall|i: int|
        0 <= i < cs.len() && has_key(support, #[trigger] cs[i].name@) ==> docs_ready(
            cs[i].interface,
            cs[i].error_values@,
            support_for(support, cs[i].name@),
        )
}

/// `a` comes before `b` in the order of `String`: character by character,
/// a proper prefix first.
pub open spec fn name_lt(a: Seq<char>, b: Seq<char>) -> bool
    decreases a.len(),
{
    if a.len() == 0 {
        b.len() > 0
    } else if b.len() == 0 {
        false
    } else if a[0] != b[0] {
        a[0] < b[0]
    } else {
        name_lt(a.drop_first(), b.drop_first())
    }
}

pub proof fn lemma_name_lt_total(a: Seq<char>, b: Seq<char>)
    ensures
        !name_lt(a, a),
        a != b && !name_lt(a, b) ==> name_lt(b, a),
    decreases a.len(),
{
    if a.len() > 0 {
        lemma_name_lt_total(a.drop_first(), a.drop_first());
        if b.len() > 0 {
            lemma_name_lt_total(a.drop_first(), b.drop_first());
            if a[0] == b[0] && a.drop_first() == b.drop_first() {
                assert(a =~= seq![a[0]] + a.drop_first());
                assert(b =~= seq![b[0]] + b.drop_first());
            }
        }
    } else if b.len() == 0 {
        assert(a =~= b);
    }
}

pub proof fn lemma_name_lt_trans(a: Seq<char>, b: Seq<char>, c: Seq<char>)
    requires
        name_lt(a, b),
        name_lt(b, c),
    ensures
        name_lt(a, c),
    decreases a.len(),
{
    if a.len() > 0 && b.len() > 0 && c.len() > 0 && a[0] == b[0] && b[0] == c[0] {
        lemma_name_lt_trans(a.drop_first(), b.drop_first(), c.drop_first());
    }
}

/// Whether `a` comes before `b` in the order of `String`.
pub fn name_less(a: &String, b: &String) -> (r: bool)
    ensures
        r == name_lt(a@, b@),
{
    let ac = chars_of(a.as_str());
    let bc = chars_of(b.as_str());
    let mut i: usize = 0;
    assert(a@.skip(0) =~= a@ && b@.skip(0) =~= b@);
    while i < ac.len() && i < bc.len() && ac[i] == bc[i]
        invariant
            i <= ac@.len(),
            i <= bc@.len(),
            ac@ == a@,
            bc@ == b@,
            name_lt(a@, b@) == name_lt(a@.skip(i as int), b@.skip(i as int)),
        decreases ac@.len() - i,
    {
        assert(a@.skip(i as int).drop_first() =~= a@.skip(i as int + 1));
        assert(b@.skip(i as int).drop_first() =~= b@.skip(i as int + 1));
        i = i + 1;
    }
    if i == ac.len() {
        i < bc.len()
    } else if i == bc.len() {
        false
    } else {
        ac[i] < bc[i]
    }
}

/// Some contract of `cs` named `n` has support material.
pub open spec fn documented(
    cs: Seq<AnalyzedContract>,
    support: Seq<(String, ContractSupportDocs)>,
    n: Seq<char>,
) -> bool {
    has_key(support, n) && exists|k: int| 0 <= k < cs.len() && #[trigger] cs[k].name@ == n
}

/// The documentation of the last contract of `cs` named `n`.
pub open spec fn last_doc(
    cs: Seq<AnalyzedContract>,
    support: Seq<(String, ContractSupportDocs)>,
    n: Seq<char>,
) -> ContractDoc
    decreases cs.len(),
{
    if cs.len() == 0 {
        (Seq::empty(), Seq::empty(), Seq::empty())
    } else if cs.last().name@ == n {
        contract_doc(cs.last().interface, cs.last().error_values@, support_for(support, n))
    } else {
        last_doc(cs.drop_last(), support, n)
    }
}

/// `v` documents the contracts `cs`: one entry per name that has support
/// material, in the order of names, each with the documentation of the last
/// contract of that name.
pub open spec fn docs_of(
    v: Seq<(String, ContractRef)>,
    cs: Seq<AnalyzedContract>,
    support: Seq<(String, ContractSupportDocs)>,
) -> bool {
    &&& forall|a: int, b: int| 0 <= a < b < v.len() ==> name_lt(#[trigger] v[a].0@, #[trigger] v[b].0@)
    &&& forall|a: int|
        0 <= a < v.len() ==> documented(cs, support, (#[trigger] v[a]).0@) && v[a].1@ == last_doc(
            cs,
            support,
            v[a].0@,
        )
    &&& forall|k: int|
        0 <= k < cs.len() && has_key(support, #[trigger] cs[k].name@) ==> exists|a: int|
            0 <= a < v.len() && #[trigger] v[a].0@ == cs[k].name@
}

/// Whether the contracts can be documented: `Ok` where support material has
/// one entry per contract name and every contract that has it is ready, else
/// the first gap found.
pub fn check_docs_refs(
    contracts: &Vec<AnalyzedContract>,
    support_docs: &Vec<(String, ContractSupportDocs)>,
) -> (r: Result<(), DocsError>)
    ensures
        r is Ok <==> keys_unique(support_docs@) && all_ready(contracts@, support_docs@),
        !keys_unique(support_docs@) ==> (r matches Err(DocsError::DuplicateName(n)) && has_key(support_docs@, n@)),
        r is Err && keys_unique(support_docs@) ==> exists|k: int|
            0 <= k < contracts@.len() && has_key(support_docs@, #[trigger] contracts@[k].name@)
                && !docs_ready(
                contracts@[k].interface,
                contracts@[k].error_values@,
                support_for(support_docs@, contracts@[k].name@),
            ),
{
    if let Some(d) = find_duplicate_key(support_docs) {
        return Err(DocsError::DuplicateName(support_docs[d].0.clone()));
    }
    let mut i: usize = 0;
    while i < contracts.len()
        invariant
            i <= contracts@.len(),
            keys_unique(support_docs@),
            all_ready(contracts@.take(i as int), support_docs@),
        decreases contracts@.len() - i,
    {
        let c = &contracts[i];
        if let Some(k) = find_key(support_docs, &c.name) {
            if let Err(e) = check_docs(&c.interface, &c.error_values, &support_docs[k].1) {
                assert(contracts@[i as int].name@ == c.name@);
                return Err(e);
            }
        }
        let ghost prefix = contracts@.take(i as int + 1);
        i = i + 1;
        assert forall|j: int|
            0 <= j < prefix.len() && has_key(support_docs@, #[trigger] prefix[j].name@) implies docs_ready(
            prefix[j].interface,
            prefix[j].error_values@,
            support_for(support_docs@, prefix[j].name@),
        ) by {
            if j < i - 1 {
                assert(prefix[j] == contracts@.take(i - 1)[j]);
            }
        }
    }
    assert(contracts@.take(i as int) =~= contracts@);
    Ok(())
}

/// Documents several contracts, given as named analysed contracts, with
/// support material by contract name: one entry per name that has support
/// material, in the order of names; where a name comes twice, the later
/// contract wins. Contracts without support material are passed over. Every
/// contract with support material must be ready (see `check_docs_refs`).
pub fn produce_docs_refs(
    contracts: &Vec<AnalyzedContract>,
    support_docs: &Vec<(String, ContractSupportDocs)>,
) -> (r: Vec<(String, ContractRef)>)
    requires
        keys_unique(support_docs@),
        all_ready(contracts@, support_docs@),
    ensures
        docs_of(r@, contracts@, support_docs@),
{
    let mut docs: Vec<(String, ContractRef)> = Vec::new();
    let mut i: usize = 0;
    while i < contracts.len()
        invariant
            i <= contracts@.len(),
            all_ready(contracts@, support_docs@),
            docs_of(docs@, contracts@.take(i as int), support_docs@),
        decreases contracts@.len() - i,
    {
        let c = &contracts[i];
        let ghost cs = contracts@.take(i as int);
        let ghost cs2 = contracts@.take(i as int + 1);
        assert(cs2.drop_last() =~= cs);
        assert(cs2.last() == contracts@[i as int]);
        assert forall|n: Seq<char>| n != c.name@ implies last_doc(cs2, support_docs@, n) == last_doc(cs, support_docs@, n) && (documented(cs2, support_docs@, n) == documented(cs, support_docs@, n)) by {
            if documented(cs2, support_docs@, n) {
                let k = choose|k: int| 0 <= k < cs2.len() && #[trigger] cs2[k].name@ == n;
                assert(k < i);
                assert(cs[k] == cs2[k]);
            }
            if documented(cs, support_docs@, n) {
                let k = choose|k: int| 0 <= k < cs.len() && #[trigger] cs[k].name@ == n;
                assert(cs[k] == cs2[k]);
            }
        }
        match find_key(support_docs, &c.name) {
            None => {
                assert forall|k: int| 0 <= k < cs2.len() && has_key(support_docs@, #[trigger] cs2[k].name@) implies exists|a: int|
                    0 <= a < docs@.len() && #[trigger] docs@[a].0@ == cs2[k].name@ by {
                    assert(cs2[k] == cs[k]);
                }
            },
            Some(k) => {
                let contract_ref = make_docs(&c.interface, &c.error_values, &support_docs[k].1);
                assert(documented(cs2, support_docs@, c.name@)) by {
                    assert(cs2[i as int].name@ == c.name@);
                }
                let ghost before = docs@;
                let mut j: usize = 0;
                while j < docs.len() && name_less(&docs[j].0, &c.name)
                    invariant
                        j <= docs@.len(),
                        docs@ == before,
                        forall|a: int| 0 <= a < j ==> name_lt(#[trigger] docs@[a].0@, c.name@),
                    decreases docs@.len() - j,
                {
                    j = j + 1;
                }
                let ghost n = c.name@;
                if j < docs.len() && docs[j].0 == c.name {
                    docs[j] = (c.name.clone(), contract_ref);
                    proof {
                        assert forall|a: int| 0 <= a < docs@.len() implies (#[trigger] docs@[a]).0@ == before[a].0@ by {}
                        assert forall|kk: int| 0 <= kk < cs2.len() && has_key(support_docs@, #[trigger] cs2[kk].name@) implies exists|a: int|
                            0 <= a < docs@.len() && #[trigger] docs@[a].0@ == cs2[kk].name@ by {
                            if kk < i {
                                assert(cs2[kk] == cs[kk]);
                                let a = choose|a: int| 0 <= a < before.len() && #[trigger] before[a].0@ == cs[kk].name@;
                                assert(docs@[a].0@ == before[a].0@);
                            } else {
                                assert(docs@[j as int].0@ == cs2[kk].name@);
                            }
                        }
                    }
                } else {
                    proof {
                        if j < docs@.len() {
                            lemma_name_lt_total(n, docs@[j as int].0@);
                            lemma_name_lt_total(docs@[j as int].0@, n);
                        }
                    }
                    docs.insert(j, (c.name.clone(), contract_ref));
                    proof {
                        assert forall|a: int, b: int| 0 <= a < b < docs@.len() implies name_lt(#[trigger] docs@[a].0@, #[trigger] docs@[b].0@) by {
                            if b < j {
                                assert(docs@[a] == before[a] && docs@[b] == before[b]);
                            } else if b == j {
                                assert(docs@[a] == before[a]);
                            } else if a < j {
                                assert(docs@[a] == before[a] && docs@[b] == before[b - 1]);
                                lemma_name_lt_trans(docs@[a].0@, n, before[j as int].0@);
                                if b - 1 > j {
                                    lemma_name_lt_trans(docs@[a].0@, before[j as int].0@, before[b - 1].0@);
                                }
                            } else if a == j {
                                assert(docs@[b] == before[b - 1]);
                                if b - 1 > j {
                                    lemma_name_lt_trans(n, before[j as int].0@, before[b - 1].0@);
                                }
                            } else {
                                assert(docs@[a] == before[a - 1] && docs@[b] == before[b - 1]);
                            }
                        }
                        assert forall|a: int| 0 <= a < docs@.len() && a != j implies (#[trigger] docs@[a]).0@ != n by {
                            if a < j {
                                assert(docs@[a] == before[a]);
                                lemma_name_lt_total(n, n);
                            } else {
                                assert(docs@[a] == before[a - 1]);
                                lemma_name_lt_total(n, n);
                                if a - 1 > j {
                                    lemma_name_lt_trans(n, before[j as int].0@, before[a - 1].0@);
                                }
                            }
                        }
                        assert forall|a: int| 0 <= a < docs@.len() && a != j implies #[trigger] docs@[a] == before[if a < j { a } else { a - 1 }] by {}
                        assert forall|kk: int| 0 <= kk < cs2.len() && has_key(support_docs@, #[trigger] cs2[kk].name@) implies exists|a: int|
                            0 <= a < docs@.len() && #[trigger] docs@[a].0@ == cs2[kk].name@ by {
                            if kk < i {
                                assert(cs2[kk] == cs[kk]);
                                let a = choose|a: int| 0 <= a < before.len() && #[trigger] before[a].0@ == cs[kk].name@;
                                if a < j {
                                    assert(docs@[a] == before[a]);
                                } else {
                                    assert(docs@[a + 1] == before[a]);
                                }
                            } else {
                                assert(docs@[j as int].0@ == cs2[kk].name@);
                            }
                        }
                    }
                }
            },
        }
        i = i + 1;
    }
    assert(contracts@.take(i as int) =~= contracts@);
    docs
}
/// The last contract of a name gives that name its documentation.
pub proof fn lemma_last_doc(cs: Seq<AnalyzedContract>, support: Seq<(String, ContractSupportDocs)>, k: int)
    requires
        0 <= k < cs.len(),
        forall|j: int| k < j < cs.len() ==> #[trigger] cs[j].name@ != cs[k].name@,
    ensures
        last_doc(cs, support, cs[k].name@) == contract_doc(
            cs[k].interface,
            cs[k].error_values@,
            support_for(support, cs[k].name@),
        ),
    decreases cs.len(),
{
    if k < cs.len() - 1 {
        let init = cs.drop_last();
        assert(cs[cs.len() - 1].name@ != cs[k].name@);
        assert(init[k] == cs[k]);
        assert forall|j: int| k < j < init.len() implies #[trigger] init[j].name@ != init[k].name@ by {
            assert(init[j] == cs[j]);
        }
        lemma_last_doc(init, support, k);
    }
}

/// Contracts of different names, both with support material, are documented
/// side by side: each name has an entry of its own, holding the documentation
/// of the last contract of that name, and neither replaces the other.
pub proof fn law_distinct_contracts_documented(
    v: Seq<(String, ContractRef)>,
    cs: Seq<AnalyzedContract>,
    support: Seq<(String, ContractSupportDocs)>,
    k1: int,
    k2: int,
)
    requires
        docs_of(v, cs, support),
        0 <= k1 < cs.len(),
        0 <= k2 < cs.len(),
        cs[k1].name@ != cs[k2].name@,
        has_key(support, cs[k1].name@),
        has_key(support, cs[k2].name@),
        forall|j: int| k1 < j < cs.len() ==> #[trigger] cs[j].name@ != cs[k1].name@,
        forall|j: int| k2 < j < cs.len() ==> #[trigger] cs[j].name@ != cs[k2].name@,
    ensures
        exists|a1: int, a2: int|
            0 <= a1 < v.len() && 0 <= a2 < v.len() && a1 != a2 && #[trigger] v[a1].0@ == cs[k1].name@
                && #[trigger] v[a2].0@ == cs[k2].name@ && v[a1].1@ == contract_doc(
                cs[k1].interface,
                cs[k1].error_values@,
                support_for(support, cs[k1].name@),
            ) && v[a2].1@ == contract_doc(
                cs[k2].interface,
                cs[k2].error_values@,
                support_for(support, cs[k2].name@),
            ),
{
    let a1 = choose|a: int| 0 <= a < v.len() && #[trigger] v[a].0@ == cs[k1].name@;
    let a2 = choose|a: int| 0 <= a < v.len() && #[trigger] v[a].0@ == cs[k2].name@;
    lemma_last_doc(cs, support, k1);
    lemma_last_doc(cs, support, k2);
    assert(v[a1].1@ == last_doc(cs, support, v[a1].0@));
    assert(v[a2].1@ == last_doc(cs, support, v[a2].0@));
}

} // verus!
