//! Registering existing Lima instances as workspaces: which instances are
//! new, what their workspaces are called, and the edit to the config text.

use vstd::prelude::*;
use crate::config::{
    blank, contains_name, is_blank, is_valid_machine_name, valid_machine_name, Config, Machine,
    Workspace,
};
use toml_edit::DocumentMut;
use crate::error::{FleetError, Fault};
use crate::path::concat_chars;
use crate::text::{chars_of, string_of, views};

verus! {

broadcast use vstd::seq_lib::group_seq_properties;

/// The decimal digit for `d < 10`.
pub open spec fn digit_char(d: nat) -> char {
    (48 + d) as char
}

/// The decimal numeral of `n`, without leading zeros.
pub open spec fn decimal(n: nat) -> Seq<char>
    decreases n,
{
    if n < 10 {
        seq![digit_char(n)]
    } else {
        decimal(n / 10).push(digit_char(n % 10))
    }
}

/// `base`, a dash, and the numeral of `k`.
pub open spec fn suffixed(base: Seq<char>, k: nat) -> Seq<char> {
    base + seq!['-'] + decimal(k)
}

/// Whether `k` is the first number from 2 on whose suffixed name is free.
pub open spec fn is_least_free(taken: Set<Seq<char>>, base: Seq<char>, k: nat) -> bool {
    &&& k >= 2
    &&& !taken.contains(suffixed(base, k))
    &&& forall|j: nat| 2 <= j < k ==> taken.contains(#[trigger] suffixed(base, j))
}

/// The first number from 2 on whose suffixed name is free.
pub open spec fn least_free(taken: Set<Seq<char>>, base: Seq<char>) -> nat {
    choose|k: nat| is_least_free(taken, base, k)
}

/// The workspace name for a newly found Lima instance: its own name if
/// free, else `lima-<name>` if free, else `lima-<name>-2`, `-3`, ... (the
/// first free one).
pub open spec fn lima_name_for(taken: Set<Seq<char>>, machine: Seq<char>) -> Seq<char> {
    let base = "lima-"@ + machine;
    if !taken.contains(machine) {
        machine
    } else if !taken.contains(base) {
        base
    } else {
        suffixed(base, least_free(taken, base))
    }
}

/// The (workspace name, instance) pairs that importing `machines` adds:
/// instances already registered (or met before in the list) are skipped,
/// and each new workspace name is free when it is chosen.
pub open spec fn import_plan(
    taken: Set<Seq<char>>,
    registered: Set<Seq<char>>,
    machines: Seq<Seq<char>>,
) -> Seq<(Seq<char>, Seq<char>)>
    decreases machines.len(),
{
    if machines.len() == 0 {
        Seq::empty()
    } else {
        let m = machines[0];
        if registered.contains(m) {
            import_plan(taken, registered, machines.drop_first())
        } else {
            let n = lima_name_for(taken, m);
            seq![(n, m)] + import_plan(taken.insert(n), registered.insert(m), machines.drop_first())
        }
    }
}

/// The names of the workspaces.
pub open spec fn workspace_names(wss: Seq<Workspace>) -> Seq<Seq<char>> {
    wss.map_values(|w: Workspace| w.name@)
}

/// The names of the Lima instances that the workspaces use.
pub open spec fn lima_machines(wss: Seq<Workspace>) -> Seq<Seq<char>>
    decreases wss.len(),
{
    if wss.len() == 0 {
        Seq::empty()
    } else {
        lima_machines(wss.drop_last()) + match wss.last().machine {
            Machine::Lima { name } => seq![name@],
            Machine::Azure { .. } => Seq::empty(),
        }
    }
}

/// What importing `machines` into `config` adds.
pub open spec fn lima_import_plan(config: Config, machines: Seq<Seq<char>>) -> Seq<
    (Seq<char>, Seq<char>),
> {
    import_plan(
        workspace_names(config.workspace@).to_set(),
        lima_machines(config.workspace@).to_set(),
        machines,
    )
}

proof fn lemma_decimal_len(n: nat)
    ensures
        decimal(n).len() >= 1,
        n >= 10 ==> decimal(n).len() >= 2,
    decreases n,
{
    if n >= 10 {
        lemma_decimal_len(n / 10);
    }
}

proof fn lemma_decimal_injective(a: nat, b: nat)
    requires
        decimal(a) == decimal(b),
    ensures
        a == b,
    decreases a,
{
    lemma_decimal_len(a);
    lemma_decimal_len(b);
    if a < 10 && b < 10 {
        assert(decimal(a)[0] == digit_char(a));
        assert(decimal(b)[0] == digit_char(b));
    } else if a >= 10 && b >= 10 {
        assert(decimal(a).drop_last() == decimal(a / 10));
        assert(decimal(b).drop_last() == decimal(b / 10));
        lemma_decimal_injective(a / 10, b / 10);
        assert(decimal(a).last() == digit_char(a % 10));
        assert(decimal(b).last() == digit_char(b % 10));
    }
}

proof fn lemma_suffixed_injective(base: Seq<char>, a: nat, b: nat)
    requires
        suffixed(base, a) == suffixed(base, b),
    ensures
        a == b,
{
    assert(suffixed(base, a).skip(base.len() + 1int) =~= decimal(a));
    assert(suffixed(base, b).skip(base.len() + 1int) =~= decimal(b));
    lemma_decimal_injective(a, b);
}

/// The suffixed names for the numbers `2 <= j < k`.
spec fn suffixed_range(base: Seq<char>, k: nat) -> Set<Seq<char>> {
    Set::new(|s: Seq<char>| exists|j: nat| 2 <= j < k && s == #[trigger] suffixed(base, j))
}

proof fn lemma_suffixed_range_len(base: Seq<char>, k: nat)
    requires
        k >= 2,
    ensures
        suffixed_range(base, k).finite(),
        suffixed_range(base, k).len() == k - 2,
    decreases k,
{
    if k == 2 {
        assert(suffixed_range(base, k) =~= Set::<Seq<char>>::empty());
    } else {
        let k1 = (k - 1) as nat;
        lemma_suffixed_range_len(base, k1);
        assert(suffixed_range(base, k) =~= suffixed_range(base, k1).insert(suffixed(base, k1))) by {
            assert forall|s: Seq<char>| #[trigger]
                suffixed_range(base, k).contains(s) implies suffixed_range(base, k1).insert(
                suffixed(base, k1),
            ).contains(s) by {
                let j = choose|j: nat| 2 <= j < k && s == #[trigger] suffixed(base, j);
                if j < k1 {
                    assert(suffixed_range(base, k1).contains(s));
                }
            }
        }
        if suffixed_range(base, k1).contains(suffixed(base, k1)) {
            let j = choose|j: nat| 2 <= j < k1 && suffixed(base, k1) == #[trigger] suffixed(base, j);
            lemma_suffixed_injective(base, j, k1);
        }
    }
}

/// When the suffixed names for `2 <= j < k` are all taken, there are at
/// least `k - 2` taken names.
proof fn lemma_taken_bound(taken: Set<Seq<char>>, base: Seq<char>, k: nat)
    requires
        taken.finite(),
        k >= 2,
        forall|j: nat| 2 <= j < k ==> taken.contains(#[trigger] suffixed(base, j)),
    ensures
        k - 2 <= taken.len(),
{
    lemma_suffixed_range_len(base, k);
    assert(suffixed_range(base, k).subset_of(taken));
    vstd::set_lib::lemma_len_subset(suffixed_range(base, k), taken);
}

proof fn lemma_least_free_is(taken: Set<Seq<char>>, base: Seq<char>, k: nat)
    requires
        is_least_free(taken, base, k),
    ensures
        least_free(taken, base) == k,
{
    let c = least_free(taken, base);
    assert(is_least_free(taken, base, c));
    if c < k {
        assert(taken.contains(suffixed(base, c)));
    }
    if k < c {
        assert(taken.contains(suffixed(base, k)));
    }
}

fn digit(d: u128) -> (c: char)
    requires
        d < 10,
    ensures
        c == digit_char(d as nat),
{
    ((d as u8) + 48u8) as char
}

pub(crate) fn decimal_chars(n: u128) -> (r: Vec<char>)
    ensures
        r@ == decimal(n as nat),
    decreases n,
{
    if n < 10 {
        let mut v: Vec<char> = Vec::new();
        v.push(digit(n));
        assert(v@ =~= seq![digit_char(n as nat)]);
        v
    } else {
        let mut v = decimal_chars(n / 10);
        v.push(digit(n % 10));
        v
    }
}

fn suffixed_name(base: &Vec<char>, k: u128) -> (r: String)
    ensures
        r@ == suffixed(base@, k as nat),
{
    let mut v = concat_chars(base, &Vec::new());
    assert(v@ =~= base@);
    v.push('-');
    let r = concat_chars(&v, &decimal_chars(k));
    string_of(&r)
}

/// The workspace name for a newly found Lima instance `machine`, given the
/// names already taken.
fn fresh_name(names: &Vec<String>, machine: &String) -> (r: String)
    ensures
        r@ == lima_name_for(views(names@).to_set(), machine@),
{
    let ghost taken = views(names@).to_set();
    assert forall|s: Seq<char>| views(names@).contains(s) <==> taken.contains(s) by {}
    if !contains_name(names, machine) {
        return machine.clone();
    }
    let base_chars = concat_chars(&chars_of("lima-"), &chars_of(machine.as_str()));
    let base = string_of(&base_chars);
    if !contains_name(names, &base) {
        return base;
    }
    proof {
        views(names@).lemma_cardinality_of_set();
        vstd::seq_lib::seq_to_set_is_finite(views(names@));
    }
    let mut suffix: u128 = 2;
    while suffix <= names.len() as u128 + 2
        invariant
            taken == views(names@).to_set(),
            taken.finite(),
            taken.len() <= names.len(),
            base_chars@ == "lima-"@ + machine@,
            taken.contains(machine@),
            taken.contains(base_chars@),
            2 <= suffix,
            forall|j: nat| 2 <= j < suffix ==> taken.contains(#[trigger] suffixed(base_chars@, j)),
        decreases names.len() as u128 + 3 - suffix,
    {
        let candidate = suffixed_name(&base_chars, suffix);
        if !contains_name(names, &candidate) {
            proof {
                assert(is_least_free(taken, base_chars@, suffix as nat));
                lemma_least_free_is(taken, base_chars@, suffix as nat);
            }
            return candidate;
        }
        suffix = suffix + 1;
    }
    proof {
        lemma_taken_bound(taken, base_chars@, suffix as nat);
        assert(false);
    }
    base
}

/// The views of (workspace name, instance) pairs.
pub open spec fn plan_view(v: Seq<(String, String)>) -> Seq<(Seq<char>, Seq<char>)> {
    v.map_values(|p: (String, String)| (p.0@, p.1@))
}

fn names_of(config: &Config) -> (r: Vec<String>)
    ensures
        views(r@) == workspace_names(config.workspace@),
{
    let mut r: Vec<String> = Vec::new();
    let mut i: usize = 0;
    while i < config.workspace.len()
        invariant
            i <= config.workspace.len(),
            views(r@) == workspace_names(config.workspace@.take(i as int)),
        decreases config.workspace.len() - i,
    {
        let n = config.workspace[i].name.clone();
        let ghost before = views(r@);
        r.push(n);
        assert(views(r@) =~= before.push(n@));
        assert(workspace_names(config.workspace@.take(i + 1)) =~= workspace_names(
            config.workspace@.take(i as int),
        ).push(n@));
        i = i + 1;
    }
    assert(config.workspace@.take(i as int) =~= config.workspace@);
    r
}

fn lima_machines_of(config: &Config) -> (r: Vec<String>)
    ensures
        views(r@) == lima_machines(config.workspace@),
{
    let mut r: Vec<String> = Vec::new();
    let mut i: usize = 0;
    assert(views(r@) =~= lima_machines(config.workspace@.take(0)));
    while i < config.workspace.len()
        invariant
            i <= config.workspace.len(),
            views(r@) == lima_machines(config.workspace@.take(i as int)),
        decreases config.workspace.len() - i,
    {
        let ghost pre = config.workspace@.take(i + 1);
        assert(pre.drop_last() =~= config.workspace@.take(i as int));
        assert(pre.last() == config.workspace@[i as int]);
        let ghost before = views(r@);
        match &config.workspace[i].machine {
            Machine::Lima { name } => {
                r.push(name.clone());
                assert(views(r@) =~= before + seq![name@]);
            },
            Machine::Azure { .. } => {
                assert(views(r@) =~= before + Seq::<Seq<char>>::empty());
            },
        }
        i = i + 1;
    }
    assert(config.workspace@.take(i as int) =~= config.workspace@);
    r
}

proof fn lemma_push_to_set(v: Seq<String>, x: String)
    ensures
        views(v.push(x)).to_set() == views(v).to_set().insert(x@),
{
    assert(views(v.push(x)) =~= views(v).push(x@));
    assert(views(v).push(x@).to_set() =~= views(v).to_set().insert(x@)) by {
        assert forall|s: Seq<char>| #[trigger] views(v).push(x@).contains(s) <==> views(v).to_set().insert(
            x@,
        ).contains(s) by {
            if views(v).push(x@).contains(s) {
                let k = choose|k: int| 0 <= k < views(v).push(x@).len() && views(v).push(x@)[k] == s;
                if k < views(v).len() {
                    assert(views(v).contains(s));
                }
            }
            if views(v).contains(s) {
                let k = choose|k: int| 0 <= k < views(v).len() && views(v)[k] == s;
                assert(views(v).push(x@)[k] == s);
            }
            if s == x@ {
                assert(views(v).push(x@)[views(v).len() as int] == s);
            }
        }
    }
}

/// The (workspace name, instance) pairs that importing the Lima instances
/// `machines` into `config` adds, in the order found.
pub fn plan_lima_import(config: &Config, machines: &Vec<String>) -> (r: Vec<(String, String)>)
    ensures
        plan_view(r@) == lima_import_plan(*config, views(machines@)),
{
    let mut names = names_of(config);
    let mut registered = lima_machines_of(config);
    let ghost ms = views(machines@);
    let mut out: Vec<(String, String)> = Vec::new();
    let mut i: usize = 0;
    assert(ms.skip(0) == ms);
    assert(plan_view(out@) + lima_import_plan(*config, ms) =~= lima_import_plan(*config, ms));
    while i < machines.len()
        invariant
            ms == views(machines@),
            i <= machines.len(),
            lima_import_plan(*config, ms) == plan_view(out@) + import_plan(
                views(names@).to_set(),
                views(registered@).to_set(),
                ms.skip(i as int),
            ),
        decreases machines.len() - i,
    {
        let ghost rest = ms.skip(i as int);
        assert(rest[0] == machines@[i as int]@);
        assert(rest.drop_first() == ms.skip(i + 1));
        let m = &machines[i];
        if !contains_name(&registered, m) {
            let n = fresh_name(&names, m);
            let ghost taken = views(names@).to_set();
            let ghost reg = views(registered@).to_set();
            proof {
                lemma_push_to_set(names@, n);
                lemma_push_to_set(registered@, *m);
                assert forall|s: Seq<char>| views(registered@).contains(s) <==> reg.contains(s) by {}
            }
            names.push(n.clone());
            registered.push(m.clone());
            let ghost before = plan_view(out@);
            out.push((n, m.clone()));
            assert(plan_view(out@) =~= before.push((n@, m@)));
            assert(before + import_plan(taken, reg, rest) =~= plan_view(out@) + import_plan(
                taken.insert(n@),
                reg.insert(m@),
                ms.skip(i + 1),
            ));
        } else {
            assert(views(registered@).to_set().contains(m@));
        }
        i = i + 1;
    }
    assert(ms.skip(i as int).len() == 0);
    assert(plan_view(out@) + Seq::<(Seq<char>, Seq<char>)>::empty() =~= plan_view(out@));
    out
}

/// `toml_edit::DocumentMut`, an editable TOML document that keeps the
/// layout and comments of the text it was read from.
#[verifier::external_type_specification]
#[verifier::external_body]
pub struct ExDocumentMut(toml_edit::DocumentMut);

/// What a top-level key of a TOML document holds, as far as appending a
/// table to it goes.
pub enum Shape {
    /// Nothing.
    Absent,
    /// An array of tables (`[[key]]` sections).
    Tables,
    /// An array value (`key = [...]`).
    Inline,
    /// Any other item.
    Other,
}

// A document's tables are insertion-ordered maps: nothing that can be
// observed of a document depends on the seed of their hashers, so the names
// below, which give documents as results, are functions of their arguments.

/// Names what `str::parse::<toml_edit::DocumentMut>` reads from `source`;
/// `None` when it is not TOML.
pub uninterp spec fn parsed_document(source: Seq<char>) -> Option<DocumentMut>;

/// Reads a TOML document with `str::parse::<toml_edit::DocumentMut>`; the
/// parser's error is not kept.
#[verifier::external_body]
fn parse_document(source: &str) -> (r: Option<DocumentMut>)
    ensures
        r == parsed_document(source@),
{
    source.parse::<DocumentMut>().ok()
}

/// Names the shape of what `toml_edit::Table::get` finds under the
/// top-level `key` of `d`.
pub uninterp spec fn entry_shape(d: DocumentMut, key: Seq<char>) -> Shape;

/// The shape of what `toml_edit::Table::get` finds under the top-level
/// `key`: `Item::ArrayOfTables`, `Item::Value(Value::Array)`, another item,
/// or nothing.
#[verifier::external_body]
fn shape_of(doc: &DocumentMut, key: &str) -> (r: Shape)
    ensures
        r == entry_shape(*doc, key@),
{
    match doc.get(key) {
        None => Shape::Absent,
        Some(toml_edit::Item::ArrayOfTables(_)) => Shape::Tables,
        Some(toml_edit::Item::Value(toml_edit::Value::Array(_))) => Shape::Inline,
        Some(_) => Shape::Other,
    }
}

/// Names the document after `toml_edit::Table::insert` puts an empty array
/// of tables under the top-level `key` of `d`.
pub uninterp spec fn with_table_array(d: DocumentMut, key: Seq<char>) -> DocumentMut;

/// Puts an empty array of tables under the top-level `key` with
/// `toml_edit::Table::insert`; `Table::get` then finds that array there.
#[verifier::external_body]
fn insert_table_array(doc: &mut DocumentMut, key: &str)
    ensures
        *final(doc) == with_table_array(*old(doc), key@),
        entry_shape(*final(doc), key@) == Shape::Tables,
{
    doc.insert(key, toml_edit::Item::ArrayOfTables(toml_edit::ArrayOfTables::new()));
}

/// Names the document after `toml_edit::ArrayOfTables::push` appends the
/// table `{ name_key = name, inner_key = { tag_key = tag, name_key =
/// inner_name } }` to the array of tables under the top-level `key` of `d`.
pub uninterp spec fn table_pushed(
    d: DocumentMut,
    key: Seq<char>,
    name_key: Seq<char>,
    name: Seq<char>,
    inner_key: Seq<char>,
    tag_key: Seq<char>,
    tag: Seq<char>,
    inner_name: Seq<char>,
) -> DocumentMut;

/// Appends, with `toml_edit::ArrayOfTables::push`, the table
/// `{ name_key = name, inner_key = { tag_key = tag, name_key = inner_name } }`
/// (built with `Table::new`, `InlineTable::new`, `insert` and `value`) to the
/// array of tables under `key`, which stays an array of tables.
#[verifier::external_body]
fn push_table(
    doc: &mut DocumentMut,
    key: &str,
    name_key: &str,
    name: &str,
    inner_key: &str,
    tag_key: &str,
    tag: &str,
    inner_name: &str,
)
    requires
        entry_shape(*old(doc), key@) == Shape::Tables,
    ensures
        *final(doc) == table_pushed(
            *old(doc),
            key@,
            name_key@,
            name@,
            inner_key@,
            tag_key@,
            tag@,
            inner_name@,
        ),
        entry_shape(*final(doc), key@) == Shape::Tables,
{
    let mut inner = toml_edit::InlineTable::new();
    inner.insert(tag_key, tag.into());
    inner.insert(name_key, inner_name.into());
    let mut table = toml_edit::Table::new();
    table.insert(name_key, toml_edit::value(name));
    table.insert(inner_key, toml_edit::value(inner));
    if let Some(toml_edit::Item::ArrayOfTables(array)) = doc.get_mut(key) {
        array.push(table);
    }
}

/// Names the document after `toml_edit::Array::push` appends the inline
/// table `{ name_key = name, inner_key = { tag_key = tag, name_key =
/// inner_name } }` to the array under the top-level `key` of `d`.
pub uninterp spec fn inline_pushed(
    d: DocumentMut,
    key: Seq<char>,
    name_key: Seq<char>,
    name: Seq<char>,
    inner_key: Seq<char>,
    tag_key: Seq<char>,
    tag: Seq<char>,
    inner_name: Seq<char>,
) -> DocumentMut;

/// Appends, with `toml_edit::Array::push`, the inline table
/// `{ name_key = name, inner_key = { tag_key = tag, name_key = inner_name } }`
/// (built as in [`push_table`], then `Table::into_inline_table`) to the array
/// under `key`, which stays an array.
#[verifier::external_body]
fn push_inline(
    doc: &mut DocumentMut,
    key: &str,
    name_key: &str,
    name: &str,
    inner_key: &str,
    tag_key: &str,
    tag: &str,
    inner_name: &str,
)
    requires
        entry_shape(*old(doc), key@) == Shape::Inline,
    ensures
        *final(doc) == inline_pushed(
            *old(doc),
            key@,
            name_key@,
            name@,
            inner_key@,
            tag_key@,
            tag@,
            inner_name@,
        ),
        entry_shape(*final(doc), key@) == Shape::Inline,
{
    let mut inner = toml_edit::InlineTable::new();
    inner.insert(tag_key, tag.into());
    inner.insert(name_key, inner_name.into());
    let mut table = toml_edit::Table::new();
    table.insert(name_key, toml_edit::value(name));
    table.insert(inner_key, toml_edit::value(inner));
    if let Some(array) = doc.get_mut(key).and_then(toml_edit::Item::as_array_mut) {
        array.push(toml_edit::Value::InlineTable(table.into_inline_table()));
    }
}

/// Names the text that `toml_edit` renders `d` to (its `Display`).
pub uninterp spec fn document_text(d: DocumentMut) -> Seq<char>;

/// Renders a document as TOML text with `to_string`.
#[verifier::external_body]
fn render(doc: &DocumentMut) -> (r: String)
    ensures
        r@ == document_text(*doc),
{
    doc.to_string()
}

/// The document after the workspace `{ name = name, machine = { backend =
/// "lima", name = machine } }` is appended under `workspace`: to an array of
/// tables, created when the key is absent, or to a hand-written array; `None`
/// when `workspace` holds anything else.
pub open spec fn with_workspace(d: DocumentMut, name: Seq<char>, machine: Seq<char>) -> Option<
    DocumentMut,
> {
    let key = "workspace"@;
    match entry_shape(d, key) {
        Shape::Absent => Some(
            table_pushed(
                with_table_array(d, key),
                key,
                "name"@,
                name,
                "machine"@,
                "backend"@,
                "lima"@,
                machine,
            ),
        ),
        Shape::Tables => Some(
            table_pushed(d, key, "name"@, name, "machine"@, "backend"@, "lima"@, machine),
        ),
        Shape::Inline => Some(
            inline_pushed(d, key, "name"@, name, "machine"@, "backend"@, "lima"@, machine),
        ),
        Shape::Other => None,
    }
}

/// Whatever `workspace` holds, a planned workspace goes in with the same
/// roles: its workspace name under `name`, and under `machine` the backend
/// `lima` and the instance it stands for under `name`. An absent key becomes
/// an array of tables, an array of tables gets a table, a hand-written array
/// gets an inline table, and anything else is refused.
pub proof fn workspace_entry_roles(d: DocumentMut, name: Seq<char>, machine: Seq<char>)
    ensures
        entry_shape(d, "workspace"@) is Absent ==> with_workspace(d, name, machine) == Some(
            table_pushed(
                with_table_array(d, "workspace"@),
                "workspace"@,
                "name"@,
                name,
                "machine"@,
                "backend"@,
                "lima"@,
                machine,
            ),
        ),
        entry_shape(d, "workspace"@) is Tables ==> with_workspace(d, name, machine) == Some(
            table_pushed(d, "workspace"@, "name"@, name, "machine"@, "backend"@, "lima"@, machine),
        ),
        entry_shape(d, "workspace"@) is Inline ==> with_workspace(d, name, machine) == Some(
            inline_pushed(d, "workspace"@, "name"@, name, "machine"@, "backend"@, "lima"@, machine),
        ),
        entry_shape(d, "workspace"@) is Other ==> with_workspace(d, name, machine) is None,
{
}

/// The document after each planned workspace is appended in turn.
pub open spec fn with_workspaces(d: DocumentMut, plan: Seq<(Seq<char>, Seq<char>)>) -> Option<
    DocumentMut,
>
    decreases plan.len(),
{
    if plan.len() == 0 {
        Some(d)
    } else {
        match with_workspace(d, plan[0].0, plan[0].1) {
            Some(next) => with_workspaces(next, plan.drop_first()),
            None => None,
        }
    }
}

/// The first rule that a new Lima workspace called `name`, for the instance
/// `machine`, breaks, given the names before it: as for any workspace, its
/// name must not be blank or taken, and the instance name must be a valid
/// machine name.
pub open spec fn entry_fault(name: Seq<char>, machine: Seq<char>, names: Seq<Seq<char>>) -> Option<
    Fault,
> {
    if blank(name) {
        Some(Fault::EmptyWorkspaceName)
    } else if names.contains(name) {
        Some(Fault::DuplicateWorkspace(name))
    } else if !valid_machine_name(machine) {
        Some(Fault::InvalidMachineName(machine))
    } else {
        None
    }
}

/// The first rule that the planned workspaces break, in order, after the
/// workspaces named `names`.
pub open spec fn entries_fault(names: Seq<Seq<char>>, plan: Seq<(Seq<char>, Seq<char>)>) -> Option<
    Fault,
>
    decreases plan.len(),
{
    if plan.len() == 0 {
        None
    } else {
        match entry_fault(plan[0].0, plan[0].1, names) {
            Some(f) => Some(f),
            None => entries_fault(names.push(plan[0].0), plan.drop_first()),
        }
    }
}

/// What importing `machines` into `config`, read from the TOML text
/// `source`, gives: the new config text (the same text when nothing is
/// added), or why the import is refused.
pub open spec fn import_outcome(source: Seq<char>, config: Config, machines: Seq<Seq<char>>) -> Result<
    Seq<char>,
    Fault,
> {
    let plan = lima_import_plan(config, machines);
    match parsed_document(source) {
        None => Err(Fault::InvalidToml),
        Some(d) => match with_workspaces(d, plan) {
            None => Err(Fault::WorkspaceNotArray),
            Some(e) => match entries_fault(workspace_names(config.workspace@), plan) {
                Some(f) => Err(f),
                None => Ok(
                    if plan.len() == 0 {
                        source
                    } else {
                        document_text(e)
                    },
                ),
            },
        },
    }
}

/// Appends one planned workspace to the document.
fn append_workspace(doc: &mut DocumentMut, name: &str, machine: &str) -> (ok: bool)
    ensures
        match with_workspace(*old(doc), name@, machine@) {
            Some(next) => ok && *final(doc) == next,
            None => !ok,
        },
{
    let key = "workspace";
    match shape_of(doc, key) {
        Shape::Absent => {
            insert_table_array(doc, key);
            push_table(doc, key, "name", name, "machine", "backend", "lima", machine);
            true
        },
        Shape::Tables => {
            push_table(doc, key, "name", name, "machine", "backend", "lima", machine);
            true
        },
        Shape::Inline => {
            push_inline(doc, key, "name", name, "machine", "backend", "lima", machine);
            true
        },
        Shape::Other => false,
    }
}

/// The first rule that the planned workspaces break after the workspaces
/// named `names`.
fn check_entries(names: &Vec<String>, plan: &Vec<(String, String)>) -> (r: Option<FleetError>)
    ensures
        match r {
            Some(e) => entries_fault(views(names@), plan_view(plan@)) == Some(e@),
            None => entries_fault(views(names@), plan_view(plan@)) is None,
        },
{
    let ghost pv = plan_view(plan@);
    let mut seen = names.clone();
    let mut i: usize = 0;
    assert(views(seen@) == views(names@));
    assert(pv.skip(0) == pv);
    while i < plan.len()
        invariant
            pv == plan_view(plan@),
            i <= plan.len(),
            entries_fault(views(names@), pv) == entries_fault(views(seen@), pv.skip(i as int)),
        decreases plan.len() - i,
    {
        let ghost rest = pv.skip(i as int);
        assert(rest[0] == (plan@[i as int].0@, plan@[i as int].1@));
        assert(rest.drop_first() == pv.skip(i + 1));
        let name = &plan[i].0;
        let machine = &plan[i].1;
        if is_blank(name.as_str()) {
            return Some(FleetError::EmptyWorkspaceName);
        }
        if contains_name(&seen, name) {
            return Some(FleetError::DuplicateWorkspace(name.clone()));
        }
        if !is_valid_machine_name(machine.as_str()) {
            return Some(FleetError::InvalidMachineName(machine.clone()));
        }
        let ghost before = views(seen@);
        seen.push(name.clone());
        assert(views(seen@) =~= before.push(name@));
        i = i + 1;
    }
    assert(pv.skip(i as int).len() == 0);
    None
}

/// The outcome of importing Lima instances: the new workspace names, in
/// order, and the config text that registers them.
pub struct LimaImport {
    pub added: Vec<String>,
    pub updated: String,
}

/// Registers the Lima instances `machines` that `config` (parsed from
/// `source`) does not know yet, leaving its other settings and comments as
/// they are. Instance names become workspace names; a name that is taken
/// becomes `lima-<name>`, then `lima-<name>-2`, `-3`, ... The new
/// workspaces go to the `workspace` array of tables (created when absent) or
/// to a hand-written `workspace = [...]`; the import is refused when a new
/// workspace would break the configuration's rules.
pub fn lima(source: &str, config: &Config, machines: &Vec<String>) -> (r: Result<
    LimaImport,
    FleetError,
>)
    ensures
        match r {
            Ok(imp) => views(imp.added@) == lima_import_plan(*config, views(machines@)).map_values(
                |p: (Seq<char>, Seq<char>)| p.0,
            ) && import_outcome(source@, *config, views(machines@)) == Ok::<Seq<char>, Fault>(
                imp.updated@,
            ),
            Err(e) => import_outcome(source@, *config, views(machines@)) == Err::<Seq<char>, Fault>(
                e@,
            ),
        },
{
    let mut doc = match parse_document(source) {
        Some(doc) => doc,
        None => {
            return Err(FleetError::InvalidToml);
        },
    };
    let ghost start = doc;
    let plan = plan_lima_import(config, machines);
    let ghost pv = plan_view(plan@);
    let mut added: Vec<String> = Vec::new();
    let mut i: usize = 0;
    assert(pv.skip(0) == pv);
    while i < plan.len()
        invariant
            pv == plan_view(plan@),
            pv == lima_import_plan(*config, views(machines@)),
            i <= plan.len(),
            parsed_document(source@) == Some(start),
            with_workspaces(start, pv) == with_workspaces(doc, pv.skip(i as int)),
            views(added@) == pv.take(i as int).map_values(|p: (Seq<char>, Seq<char>)| p.0),
        decreases plan.len() - i,
    {
        let ghost rest = pv.skip(i as int);
        assert(rest[0] == (plan@[i as int].0@, plan@[i as int].1@));
        assert(rest.drop_first() == pv.skip(i + 1));
        let ghost current = doc;
        if !append_workspace(&mut doc, plan[i].0.as_str(), plan[i].1.as_str()) {
            assert(with_workspaces(current, rest) is None);
            return Err(FleetError::WorkspaceNotArray);
        }
        let n = plan[i].0.clone();
        let ghost before = views(added@);
        added.push(n);
        assert(views(added@) =~= before.push(n@));
        assert(pv.take(i + 1).map_values(|p: (Seq<char>, Seq<char>)| p.0) =~= pv.take(
            i as int,
        ).map_values(|p: (Seq<char>, Seq<char>)| p.0).push(n@));
        i = i + 1;
    }
    assert(pv.take(i as int) =~= pv);
    assert(pv.skip(i as int).len() == 0);
    if let Some(e) = check_entries(&names_of(config), &plan) {
        return Err(e);
    }
    let updated = if plan.len() == 0 {
        source.to_owned()
    } else {
        render(&doc)
    };
    Ok(LimaImport { added, updated })
}

proof fn lemma_least_below(taken: Set<Seq<char>>, base: Seq<char>, k: nat)
    requires
        k >= 2,
        !taken.contains(suffixed(base, k)),
    ensures
        is_least_free(taken, base, least_free(taken, base)),
    decreases k,
{
    if forall|j: nat| 2 <= j < k ==> taken.contains(#[trigger] suffixed(base, j)) {
        assert(is_least_free(taken, base, k));
    } else {
        let j = choose|j: nat| 2 <= j < k && !taken.contains(#[trigger] suffixed(base, j));
        lemma_least_below(taken, base, j);
    }
}

/// In a finite set of taken names, some suffixed name is free, and
/// [`least_free`] is the first of them.
pub proof fn lemma_least_free(taken: Set<Seq<char>>, base: Seq<char>)
    requires
        taken.finite(),
    ensures
        is_least_free(taken, base, least_free(taken, base)),
{
    let k = (taken.len() + 3) as nat;
    if forall|j: nat| 2 <= j < k ==> taken.contains(#[trigger] suffixed(base, j)) {
        lemma_taken_bound(taken, base, k);
    } else {
        let j = choose|j: nat| 2 <= j < k && !taken.contains(#[trigger] suffixed(base, j));
        lemma_least_below(taken, base, j);
    }
}

/// The name chosen for a new instance is never one already taken.
pub proof fn lima_name_is_free(taken: Set<Seq<char>>, machine: Seq<char>)
    requires
        taken.finite(),
    ensures
        !taken.contains(lima_name_for(taken, machine)),
{
    lemma_least_free(taken, "lima-"@ + machine);
}

/// Importing adds workspaces under names that were free and distinct from
/// one another, for instances that were not registered, each once; every
/// listed instance that was not registered gets a workspace, and nothing
/// else does.
pub proof fn import_plan_is_sound(
    taken: Set<Seq<char>>,
    registered: Set<Seq<char>>,
    machines: Seq<Seq<char>>,
)
    requires
        taken.finite(),
    ensures
        ({
            let p = import_plan(taken, registered, machines);
            &&& forall|i: int| 0 <= i < p.len() ==> !taken.contains(#[trigger] p[i].0)
            &&& forall|i: int, j: int| 0 <= i < j < p.len() ==> (#[trigger] p[i]).0 != (#[trigger] p[j]).0
            &&& forall|i: int| 0 <= i < p.len() ==> !registered.contains(#[trigger] p[i].1)
            &&& forall|i: int, j: int| 0 <= i < j < p.len() ==> (#[trigger] p[i]).1 != (#[trigger] p[j]).1
            &&& forall|i: int| 0 <= i < p.len() ==> machines.contains(#[trigger] p[i].1)
            &&& forall|k: int|
                0 <= k < machines.len() && !registered.contains(#[trigger] machines[k]) ==> exists|
                    i: int,
                | 0 <= i < p.len() && (#[trigger] p[i]).1 == machines[k]
        }),
    decreases machines.len(),
{
    if machines.len() > 0 {
        let m = machines[0];
        let rest = machines.drop_first();
        if registered.contains(m) {
            import_plan_is_sound(taken, registered, rest);
            let p = import_plan(taken, registered, machines);
            assert(p == import_plan(taken, registered, rest));
            assert forall|i: int| 0 <= i < p.len() implies machines.contains(#[trigger] p[i].1) by {
                assert(rest.contains(p[i].1));
                let k = choose|k: int| 0 <= k < rest.len() && rest[k] == p[i].1;
                assert(machines[k + 1] == p[i].1);
            }
            assert forall|k: int|
                0 <= k < machines.len() && !registered.contains(
                    #[trigger] machines[k],
                ) implies exists|i: int| 0 <= i < p.len() && (#[trigger] p[i]).1 == machines[k] by {
                assert(k > 0);
                assert(rest[k - 1] == machines[k]);
            }
        } else {
            let n = lima_name_for(taken, m);
            lima_name_is_free(taken, m);
            let t2 = taken.insert(n);
            let r2 = registered.insert(m);
            import_plan_is_sound(t2, r2, rest);
            let q = import_plan(t2, r2, rest);
            let p = import_plan(taken, registered, machines);
            assert(p == seq![(n, m)] + q);
            assert forall|i: int| 0 <= i < p.len() implies !taken.contains(#[trigger] p[i].0) by {
                if i > 0 {
                    assert(p[i] == q[i - 1]);
                }
            }
            assert forall|i: int, j: int| 0 <= i < j < p.len() implies (#[trigger] p[i]).0 != (
            #[trigger] p[j]).0 by {
                assert(p[j] == q[j - 1]);
                if i > 0 {
                    assert(p[i] == q[i - 1]);
                } else {
                    assert(t2.contains(n));
                }
            }
            assert forall|i: int| 0 <= i < p.len() implies !registered.contains(#[trigger] p[i].1) by {
                if i > 0 {
                    assert(p[i] == q[i - 1]);
                }
            }
            assert forall|i: int, j: int| 0 <= i < j < p.len() implies (#[trigger] p[i]).1 != (
            #[trigger] p[j]).1 by {
                assert(p[j] == q[j - 1]);
                if i > 0 {
                    assert(p[i] == q[i - 1]);
                } else {
                    assert(r2.contains(m));
                }
            }
            assert forall|i: int| 0 <= i < p.len() implies machines.contains(#[trigger] p[i].1) by {
                if i > 0 {
                    assert(p[i] == q[i - 1]);
                    let k = choose|k: int| 0 <= k < rest.len() && rest[k] == q[i - 1].1;
                    assert(machines[k + 1] == p[i].1);
                } else {
                    assert(machines[0] == p[0].1);
                }
            }
            assert forall|k: int|
                0 <= k < machines.len() && !registered.contains(
                    #[trigger] machines[k],
                ) implies exists|i: int| 0 <= i < p.len() && (#[trigger] p[i]).1 == machines[k] by {
                if k == 0 {
                    assert(p[0].1 == machines[k]);
                } else if machines[k] == m {
                    assert(p[0].1 == machines[k]);
                } else {
                    assert(rest[k - 1] == machines[k]);
                    assert(!r2.contains(rest[k - 1]));
                    let i = choose|i: int| 0 <= i < q.len() && (#[trigger] q[i]).1 == rest[k - 1];
                    assert(p[i + 1] == q[i]);
                }
            }
        }
    }
}

/// Importing the same instances a second time, into the config that the
/// first import produced, adds nothing.
pub proof fn import_is_idempotent(
    taken: Set<Seq<char>>,
    registered: Set<Seq<char>>,
    machines: Seq<Seq<char>>,
)
    requires
        taken.finite(),
    ensures
        ({
            let p = import_plan(taken, registered, machines);
            import_plan(
                taken + p.map_values(|e: (Seq<char>, Seq<char>)| e.0).to_set(),
                registered + p.map_values(|e: (Seq<char>, Seq<char>)| e.1).to_set(),
                machines,
            ) == Seq::<(Seq<char>, Seq<char>)>::empty()
        }),
{
    let p = import_plan(taken, registered, machines);
    import_plan_is_sound(taken, registered, machines);
    let t2 = taken + p.map_values(|e: (Seq<char>, Seq<char>)| e.0).to_set();
    let r2 = registered + p.map_values(|e: (Seq<char>, Seq<char>)| e.1).to_set();
    assert forall|k: int| 0 <= k < machines.len() implies r2.contains(#[trigger] machines[k]) by {
        if !registered.contains(machines[k]) {
            let i = choose|i: int| 0 <= i < p.len() && (#[trigger] p[i]).1 == machines[k];
            assert(p.map_values(|e: (Seq<char>, Seq<char>)| e.1)[i] == machines[k]);
        }
    }
    lemma_all_registered(t2, r2, machines);
}

/// Once a configuration keeps every Lima instance that `before` used and has
/// a Lima workspace for each instance that importing `machines` into
/// `before` planned (as the configuration read back after an import does),
/// importing the same instances into it again adds nothing.
pub proof fn reimport_adds_nothing(before: Config, after: Config, machines: Seq<Seq<char>>)
    requires
        forall|m: Seq<char>|
            lima_machines(before.workspace@).contains(m) ==> #[trigger] lima_machines(
                after.workspace@,
            ).contains(m),
        forall|i: int|
            0 <= i < lima_import_plan(before, machines).len() ==> lima_machines(
                after.workspace@,
            ).contains(#[trigger] lima_import_plan(before, machines)[i].1),
    ensures
        lima_import_plan(after, machines) == Seq::<(Seq<char>, Seq<char>)>::empty(),
{
    let taken = workspace_names(before.workspace@).to_set();
    let registered = lima_machines(before.workspace@).to_set();
    let p = import_plan(taken, registered, machines);
    import_plan_is_sound(taken, registered, machines);
    let r2 = lima_machines(after.workspace@).to_set();
    assert forall|k: int| 0 <= k < machines.len() implies r2.contains(#[trigger] machines[k]) by {
        if registered.contains(machines[k]) {
            assert(lima_machines(before.workspace@).contains(machines[k]));
        } else {
            let i = choose|i: int| 0 <= i < p.len() && (#[trigger] p[i]).1 == machines[k];
            assert(p == lima_import_plan(before, machines));
            assert(lima_machines(after.workspace@).contains(lima_import_plan(before, machines)[i].1));
        }
    }
    lemma_all_registered(workspace_names(after.workspace@).to_set(), r2, machines);
}

/// Under the same conditions, importing the same instances again into the
/// configuration read from the TOML text `source` adds nothing and leaves
/// the text as it is (a text that is not TOML is refused as before).
pub proof fn reimport_leaves_text_unchanged(
    source: Seq<char>,
    before: Config,
    after: Config,
    machines: Seq<Seq<char>>,
)
    requires
        forall|m: Seq<char>|
            lima_machines(before.workspace@).contains(m) ==> #[trigger] lima_machines(
                after.workspace@,
            ).contains(m),
        forall|i: int|
            0 <= i < lima_import_plan(before, machines).len() ==> lima_machines(
                after.workspace@,
            ).contains(#[trigger] lima_import_plan(before, machines)[i].1),
    ensures
        import_outcome(source, after, machines) == match parsed_document(source) {
            Some(_) => Ok::<Seq<char>, Fault>(source),
            None => Err::<Seq<char>, Fault>(Fault::InvalidToml),
        },
{
    reimport_adds_nothing(before, after, machines);
}

proof fn lemma_all_registered(
    taken: Set<Seq<char>>,
    registered: Set<Seq<char>>,
    machines: Seq<Seq<char>>,
)
    requires
        forall|k: int| 0 <= k < machines.len() ==> registered.contains(#[trigger] machines[k]),
    ensures
        import_plan(taken, registered, machines) == Seq::<(Seq<char>, Seq<char>)>::empty(),
    decreases machines.len(),
{
    if machines.len() > 0 {
        assert(registered.contains(machines[0]));
        let rest = machines.drop_first();
        assert forall|k: int| 0 <= k < rest.len() implies registered.contains(#[trigger] rest[k]) by {
            assert(rest[k] == machines[k + 1]);
        }
        lemma_all_registered(taken, registered, rest);
    }
}

} // verus!
