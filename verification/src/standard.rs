//! The standard leaf library's context: a mapping from string keys to
//! stored values, together with the log that leaf actions write to.

use vstd::prelude::*;
use vstd::string::*;
use crate::chars::str_eq;
use crate::value::{Value, ValueV};

verus! {

/// A value stored in the context.
#[derive(Debug)]
pub enum StoreKind {
    String(String),
    I64(i64),
}

/// The mathematical value of a stored value.
pub enum StoreV {
    Str(Seq<char>),
    I64(i64),
}

impl View for StoreKind {
    type V = StoreV;

    open spec fn view(&self) -> StoreV {
        match self {
            StoreKind::String(s) => StoreV::Str(s@),
            StoreKind::I64(n) => StoreV::I64(*n),
        }
    }
}

impl DeepView for StoreKind {
    type V = StoreV;

    open spec fn deep_view(&self) -> StoreV {
        self.view()
    }
}

/// The mathematical value of a context: its variables and its log.
pub struct CtxV {
    pub vars: Map<Seq<char>, StoreV>,
    pub log: Seq<Seq<char>>,
}

/// The variable mapping held by an entry list; an earlier entry wins
/// over a later one with the same key.
pub open spec fn vars_view(entries: Seq<(String, StoreKind)>) -> Map<Seq<char>, StoreV>
    decreases entries.len(),
{
    if entries.len() == 0 {
        Map::empty()
    } else {
        vars_view(entries.drop_first()).insert(entries[0].0@, entries[0].1@)
    }
}

/// The embedder-owned state threaded mutably through every tick: a
/// mapping from string keys to `StoreKind` values, and the log that
/// leaf actions append to.
#[derive(Debug)]
pub struct Context {
    entries: Vec<(String, StoreKind)>,
    log: Vec<String>,
}

impl View for Context {
    type V = CtxV;

    closed spec fn view(&self) -> CtxV {
        CtxV { vars: vars_view(self.entries@), log: self.log.deep_view() }
    }
}

/// Replacing the first entry holding a key updates the mapping at
/// that key.
proof fn lemma_vars_view_update(entries: Seq<(String, StoreKind)>, i: int, k: String, v: StoreKind)
    requires
        0 <= i < entries.len(),
        k@ == entries[i].0@,
        forall|j: int| 0 <= j < i ==> entries[j].0@ != entries[i].0@,
    ensures
        vars_view(entries.update(i, (k, v))) == vars_view(entries).insert(k@, v@),
    decreases entries.len(),
{
    let key = entries[i].0@;
    let updated = entries.update(i, (k, v));
    if i == 0 {
        assert(updated.drop_first() =~= entries.drop_first());
        assert(vars_view(updated)
            == vars_view(entries.drop_first()).insert(key, v@));
        assert(vars_view(entries).insert(key, v@)
            =~= vars_view(entries.drop_first()).insert(key, v@));
    } else {
        assert(updated.drop_first() =~= entries.drop_first().update(i - 1, (k, v)));
        assert(entries.drop_first()[i - 1] == entries[i]);
        assert(forall|j: int|
            0 <= j < i - 1 ==> (#[trigger] entries.drop_first()[j]).0@
                != entries.drop_first()[i - 1].0@);
        lemma_vars_view_update(entries.drop_first(), i - 1, k, v);
        assert(entries[0].0@ != key);
        assert(vars_view(updated)
            == vars_view(entries.drop_first()).insert(key, v@).insert(entries[0].0@, entries[0].1@));
        assert(vars_view(entries).insert(key, v@)
            =~= vars_view(entries.drop_first()).insert(key, v@).insert(entries[0].0@, entries[0].1@));
    }
}

/// Appending an entry with a fresh key inserts it into the mapping.
proof fn lemma_vars_view_push(entries: Seq<(String, StoreKind)>, k: String, v: StoreKind)
    requires
        forall|j: int| 0 <= j < entries.len() ==> entries[j].0@ != k@,
    ensures
        vars_view(entries.push((k, v))) == vars_view(entries).insert(k@, v@),
    decreases entries.len(),
{
    let pushed = entries.push((k, v));
    if entries.len() == 0 {
        assert(pushed.drop_first() =~= Seq::<(String, StoreKind)>::empty());
        assert(pushed[0] == (k, v));
        assert(vars_view(pushed)
            == vars_view(pushed.drop_first()).insert(pushed[0].0@, pushed[0].1@));
        assert(vars_view(pushed.drop_first()) == Map::<Seq<char>, StoreV>::empty());
        assert(vars_view(pushed) =~= vars_view(entries).insert(k@, v@));
    } else {
        assert(pushed.drop_first() =~= entries.drop_first().push((k, v)));
        lemma_vars_view_push(entries.drop_first(), k, v);
        assert(entries[0].0@ != k@);
        assert(vars_view(pushed)
            == vars_view(entries.drop_first()).insert(k@, v@).insert(entries[0].0@, entries[0].1@));
        assert(vars_view(entries).insert(k@, v@)
            =~= vars_view(entries.drop_first()).insert(k@, v@).insert(entries[0].0@, entries[0].1@));
    }
}

/// The first entry with a key decides the mapping at that key.
proof fn lemma_vars_view_first(entries: Seq<(String, StoreKind)>, i: int)
    requires
        0 <= i < entries.len(),
        forall|j: int| 0 <= j < i ==> entries[j].0@ != entries[i].0@,
    ensures
        vars_view(entries).dom().contains(entries[i].0@),
        vars_view(entries)[entries[i].0@] == entries[i].1@,
    decreases entries.len(),
{
    if i > 0 {
        assert(entries.drop_first()[i - 1] == entries[i]);
        assert(forall|j: int|
            0 <= j < i - 1 ==> (#[trigger] entries.drop_first()[j]).0@
                != entries.drop_first()[i - 1].0@);
        lemma_vars_view_first(entries.drop_first(), i - 1);
    }
}

/// A key held by no entry is outside the mapping.
proof fn lemma_vars_view_absent(entries: Seq<(String, StoreKind)>, key: Seq<char>)
    requires
        forall|j: int| 0 <= j < entries.len() ==> entries[j].0@ != key,
    ensures
        !vars_view(entries).dom().contains(key),
    decreases entries.len(),
{
    if entries.len() > 0 {
        lemma_vars_view_absent(entries.drop_first(), key);
    }
}

impl Context {
    /// A fresh context: no variables and an empty log.
    pub fn new() -> (c: Context)
        ensures
            c@.vars == Map::<Seq<char>, StoreV>::empty(),
            c@.log == Seq::<Seq<char>>::empty(),
    {
        let c = Context { entries: Vec::new(), log: Vec::new() };
        proof {
            assert(c.log.deep_view() =~= Seq::<Seq<char>>::empty());
        }
        c
    }

    /// Finds the first entry with the given key.
    fn position_of(&self, key: &str) -> (r: Option<usize>)
        ensures
            match r {
                Some(i) => i < self.entries@.len() && self.entries@[i as int].0@ == key@
                    && (forall|j: int| 0 <= j < i ==> self.entries@[j].0@ != key@),
                None => forall|j: int|
                    0 <= j < self.entries@.len() ==> self.entries@[j].0@ != key@,
            },
    {
        let mut i: usize = 0;
        while i < self.entries.len()
            invariant
                0 <= i <= self.entries@.len(),
                forall|j: int| 0 <= j < i ==> self.entries@[j].0@ != key@,
            decreases self.entries@.len() - i,
        {
            if str_eq(self.entries[i].0.as_str(), key) {
                return Some(i);
            }
            i += 1;
        }
        None
    }

    /// Looks a key up.
    pub fn get(&self, key: &str) -> (r: Option<&StoreKind>)
        ensures
            match r {
                Some(v) => self@.vars.dom().contains(key@) && self@.vars[key@] == v@,
                None => !self@.vars.dom().contains(key@),
            },
    {
        match self.position_of(key) {
            Some(i) => {
                proof {
                    lemma_vars_view_first(self.entries@, i as int);
                }
                Some(&self.entries[i].1)
            }
            None => {
                proof {
                    lemma_vars_view_absent(self.entries@, key@);
                }
                None
            }
        }
    }

    /// Binds a key to a value, replacing any existing binding.
    pub fn insert_value(&mut self, key: String, value: StoreKind)
        ensures
            final(self)@.vars == old(self)@.vars.insert(key@, value@),
            final(self)@.log == old(self)@.log,
    {
        match self.position_of(key.as_str()) {
            Some(i) => {
                proof {
                    lemma_vars_view_update(self.entries@, i as int, key, value);
                }
                self.entries[i] = (key, value);
            }
            None => {
                proof {
                    lemma_vars_view_push(self.entries@, key, value);
                }
                self.entries.push((key, value));
            }
        }
    }

    /// Overwrites an existing binding; an absent key is an error and
    /// leaves the context unchanged.
    pub fn set_value(&mut self, key: &str, value: StoreKind) -> (r: Result<(), ()>)
        ensures
            old(self)@.vars.dom().contains(key@) ==> r is Ok
                && final(self)@.vars == old(self)@.vars.insert(key@, value@),
            !old(self)@.vars.dom().contains(key@) ==> r is Err && final(self)@ == old(self)@,
            final(self)@.log == old(self)@.log,
    {
        match self.position_of(key) {
            Some(i) => {
                let k = self.entries[i].0.clone();
                proof {
                    lemma_vars_view_first(self.entries@, i as int);
                    lemma_vars_view_update(self.entries@, i as int, k, value);
                }
                self.entries[i] = (k, value);
                Ok(())
            }
            None => {
                proof {
                    lemma_vars_view_absent(self.entries@, key@);
                }
                Err(())
            }
        }
    }

    /// Appends a message to the log.
    pub fn log_message(&mut self, message: String)
        ensures
            final(self)@.vars == old(self)@.vars,
            final(self)@.log == old(self)@.log.push(message@),
    {
        let ghost prev = self.log.deep_view();
        self.log.push(message);
        proof {
            assert(self.log.deep_view() =~= prev.push(message@));
        }
    }

    /// The log written so far.
    pub fn get_log(&self) -> (r: &Vec<String>)
        ensures
            r.deep_view() == self@.log,
    {
        &self.log
    }
}

/// A string with every underscore replaced by a space.
pub open spec fn underscores_to_spaces(s: Seq<char>) -> Seq<char> {
    s.map_values(|c: char| if c == '_' { ' ' } else { c })
}

/// Replaces underscores by spaces.
pub fn replace_underscores(s: &str) -> (r: String)
    ensures
        r@ == underscores_to_spaces(s@),
{
    let len = s.unicode_len();
    let mut out = String::new();
    let mut i: usize = 0;
    while i < len
        invariant
            len == s@.len(),
            0 <= i <= len,
            out@ =~= underscores_to_spaces(s@).subrange(0, i as int),
        decreases len - i,
    {
        let c = s.get_char(i);
        if c == '_' {
            crate::chars::push_char(&mut out, ' ');
        } else {
            crate::chars::push_char(&mut out, c);
        }
        proof {
            assert(out@ =~= underscores_to_spaces(s@).subrange(0, i + 1 as int));
        }
        i += 1;
    }
    proof {
        assert(out@ =~= underscores_to_spaces(s@));
    }
    out
}

/// The behaviour of a `print_text` leaf: emits its fixed message to
/// the log.
#[derive(Debug)]
pub struct PrintText {
    pub text: String,
}

impl PrintText {
    /// Appends the message to the log and succeeds.
    pub fn visit(&self, context: &mut Context)
        ensures
            final(context)@.vars == old(context)@.vars,
            final(context)@.log == old(context)@.log.push(self.text@),
    {
        context.log_message(self.text.clone());
    }
}

/// The behaviour of an `increment` leaf: adds a fixed amount to each
/// named integer variable, creating absent ones.
#[derive(Debug)]
pub struct Increment {
    pub items: Vec<(String, i64)>,
}

/// The mathematical values of an increment's entries, in order.
pub open spec fn inc_views(items: Seq<(String, i64)>) -> Seq<(Seq<char>, i64)> {
    Seq::new(items.len(), |i: int| (items[i].0@, items[i].1))
}

/// Applies increment entries in order: an absent variable is created
/// with the amount, an integer variable is increased by it (wrapping),
/// and a variable of another kind stops the walk with `Failure`.
pub open spec fn inc_items(
    items: Seq<(Seq<char>, i64)>,
    vars: Map<Seq<char>, StoreV>,
) -> (crate::tree::VisitResult, Map<Seq<char>, StoreV>)
    decreases items.len(),
{
    if items.len() == 0 {
        (crate::tree::VisitResult::Success, vars)
    } else {
        let key = items[0].0;
        let amount = items[0].1;
        if !vars.dom().contains(key) {
            inc_items(items.drop_first(), vars.insert(key, StoreV::I64(amount)))
        } else {
            match vars[key] {
                StoreV::I64(v) => inc_items(
                    items.drop_first(),
                    vars.insert(key, StoreV::I64(vstd::wrapping::i64_specs::wrapping_add(v, amount))),
                ),
                StoreV::Str(_) => (crate::tree::VisitResult::Failure, vars),
            }
        }
    }
}

impl Increment {
    /// Applies every entry in order; fails on a variable of the wrong
    /// kind and leaves the entries after it untouched.
    pub fn visit(&self, context: &mut Context) -> (r: crate::tree::VisitResult)
        ensures
            ({
                let (vr, vars2) = inc_items(inc_views(self.items@), old(context)@.vars);
                &&& r == vr
                &&& final(context)@.vars == vars2
                &&& final(context)@.log == old(context)@.log
            }),
    {
        let ghost items = inc_views(self.items@);
        let ghost vars0 = old(context)@.vars;
        let mut i: usize = 0;
        proof {
            assert(items.skip(0) =~= items);
        }
        while i < self.items.len()
            invariant
                0 <= i <= self.items@.len(),
                items == inc_views(self.items@),
                vars0 == old(context)@.vars,
                items.len() == self.items@.len(),
                forall|j: int|
                    0 <= j < items.len() ==> items[j] == (self.items@[j].0@, self.items@[j].1),
                inc_items(items.skip(i as int), context@.vars) == inc_items(items, vars0),
                context@.log == old(context)@.log,
            decreases self.items@.len() - i,
        {
            let ghost rem = items.skip(i as int);
            proof {
                assert(rem.len() > 0);
                assert(rem[0] == items[i as int]);
                assert(rem.drop_first() =~= items.skip(i as int + 1));
            }
            let key = &self.items[i].0;
            let amount = self.items[i].1;
            match context.get(key.as_str()) {
                None => {
                    context.insert_value(key.clone(), StoreKind::I64(amount));
                }
                Some(StoreKind::I64(v)) => {
                    let added = v.wrapping_add(amount);
                    context.insert_value(key.clone(), StoreKind::I64(added));
                }
                Some(StoreKind::String(_)) => {
                    return crate::tree::VisitResult::Failure;
                }
            }
            i += 1;
        }
        proof {
            assert(items.skip(i as int).len() == 0);
        }
        crate::tree::VisitResult::Success
    }
}

/// Copies an increment's entry list.
pub fn clone_items(items: &Vec<(String, i64)>) -> (r: Vec<(String, i64)>)
    ensures
        inc_views(r@) == inc_views(items@),
{
    let mut out: Vec<(String, i64)> = Vec::new();
    let mut i: usize = 0;
    while i < items.len()
        invariant
            0 <= i <= items@.len(),
            out@.len() == i,
            forall|j: int|
                0 <= j < i ==> out@[j].0@ == items@[j].0@ && out@[j].1 == items@[j].1,
        decreases items@.len() - i,
    {
        out.push((items[i].0.clone(), items[i].1));
        i += 1;
    }
    proof {
        assert(inc_views(out@) =~= inc_views(items@));
    }
    out
}

/// Which built-in leaf factory a registered name stands for.
#[derive(Debug, Clone, Copy, PartialEq, Eq, Structural)]
pub enum LeafConstructor {
    PrintText,
    AlwaysRunning,
    EvaluateInt,
    CheckCondition,
    Increment,
}

/// The name-to-factory mapping held by a registry's entry list; an
/// earlier entry wins over a later one with the same key.
pub open spec fn registry_view(entries: Seq<(String, LeafConstructor)>) -> Map<
    Seq<char>,
    LeafConstructor,
>
    decreases entries.len(),
{
    if entries.len() == 0 {
        Map::empty()
    } else {
        registry_view(entries.drop_first()).insert(entries[0].0@, entries[0].1)
    }
}

proof fn lemma_registry_view_update(
    entries: Seq<(String, LeafConstructor)>,
    i: int,
    k: String,
    v: LeafConstructor,
)
    requires
        0 <= i < entries.len(),
        k@ == entries[i].0@,
        forall|j: int| 0 <= j < i ==> entries[j].0@ != entries[i].0@,
    ensures
        registry_view(entries.update(i, (k, v))) == registry_view(entries).insert(k@, v),
    decreases entries.len(),
{
    let key = entries[i].0@;
    let updated = entries.update(i, (k, v));
    if i == 0 {
        assert(updated.drop_first() =~= entries.drop_first());
        assert(registry_view(entries).insert(key, v)
            =~= registry_view(entries.drop_first()).insert(key, v));
    } else {
        assert(updated.drop_first() =~= entries.drop_first().update(i - 1, (k, v)));
        assert(entries.drop_first()[i - 1] == entries[i]);
        assert(forall|j: int|
            0 <= j < i - 1 ==> (#[trigger] entries.drop_first()[j]).0@
                != entries.drop_first()[i - 1].0@);
        lemma_registry_view_update(entries.drop_first(), i - 1, k, v);
        assert(entries[0].0@ != key);
        assert(registry_view(entries).insert(key, v)
            =~= registry_view(entries.drop_first()).insert(key, v).insert(
            entries[0].0@,
            entries[0].1,
        ));
    }
}

proof fn lemma_registry_view_push(
    entries: Seq<(String, LeafConstructor)>,
    k: String,
    v: LeafConstructor,
)
    requires
        forall|j: int| 0 <= j < entries.len() ==> entries[j].0@ != k@,
    ensures
        registry_view(entries.push((k, v))) == registry_view(entries).insert(k@, v),
    decreases entries.len(),
{
    let pushed = entries.push((k, v));
    if entries.len() == 0 {
        assert(pushed.drop_first() =~= Seq::<(String, LeafConstructor)>::empty());
        assert(pushed[0] == (k, v));
        assert(registry_view(pushed)
            == registry_view(pushed.drop_first()).insert(pushed[0].0@, pushed[0].1));
        assert(registry_view(pushed.drop_first()) == Map::<Seq<char>, LeafConstructor>::empty());
        assert(registry_view(pushed) =~= registry_view(entries).insert(k@, v));
    } else {
        assert(pushed.drop_first() =~= entries.drop_first().push((k, v)));
        lemma_registry_view_push(entries.drop_first(), k, v);
        assert(entries[0].0@ != k@);
        assert(registry_view(entries).insert(k@, v)
            =~= registry_view(entries.drop_first()).insert(k@, v).insert(
            entries[0].0@,
            entries[0].1,
        ));
    }
}

proof fn lemma_registry_view_first(entries: Seq<(String, LeafConstructor)>, i: int)
    requires
        0 <= i < entries.len(),
        forall|j: int| 0 <= j < i ==> entries[j].0@ != entries[i].0@,
    ensures
        registry_view(entries).dom().contains(entries[i].0@),
        registry_view(entries)[entries[i].0@] == entries[i].1,
    decreases entries.len(),
{
    if i > 0 {
        assert(entries.drop_first()[i - 1] == entries[i]);
        assert(forall|j: int|
            0 <= j < i - 1 ==> (#[trigger] entries.drop_first()[j]).0@
                != entries.drop_first()[i - 1].0@);
        lemma_registry_view_first(entries.drop_first(), i - 1);
    }
}

proof fn lemma_registry_view_absent(entries: Seq<(String, LeafConstructor)>, key: Seq<char>)
    requires
        forall|j: int| 0 <= j < entries.len() ==> entries[j].0@ != key,
    ensures
        !registry_view(entries).dom().contains(key),
    decreases entries.len(),
{
    if entries.len() > 0 {
        lemma_registry_view_absent(entries.drop_first(), key);
    }
}

/// What the `print_text` factory makes of its options: the message to
/// log, with underscores replaced by spaces.
pub open spec fn spec_print_text(opt: Option<ValueV>) -> Result<crate::tree::LeafS, Seq<char>> {
    match opt {
        Some(ValueV::Str(message)) => Ok(
            crate::tree::LeafS::Print(underscores_to_spaces(message)),
        ),
        other => Err("Expected message, found "@ + crate::expressions::spec_opt_desc(other)),
    }
}

/// Builds a `print_text` leaf factory: the option is the message, with
/// `_` standing for a space.
pub fn print_text(options: &Option<Value>) -> (r: Result<crate::tree::LeafFactory, String>)
    ensures
        ({
            match spec_print_text(crate::conditions::opt_view(*options)) {
                Ok(ls) => r matches Ok(f) && f@ == ls,
                Err(m) => r matches Err(s) && s@ == m,
            }
        }),
{
    match options {
        Some(Value::String(message)) => {
            let text = replace_underscores(message.as_str());
            Ok(crate::tree::LeafFactory::Print(PrintText { text }))
        }
        other => {
            let mut m = String::from_str("Expected message, found ");
            match other {
                None => m.append("nothing"),
                Some(v) => {
                    let d = crate::expressions::value_desc_exec(v);
                    m.append(d.as_str());
                }
            }
            Err(m)
        }
    }
}

/// Builds an `always_running` leaf factory; the options are ignored.
pub fn always_running(options: &Option<Value>) -> (r: Result<crate::tree::LeafFactory, String>)
    ensures
        r matches Ok(f) && f@ == crate::tree::LeafS::AlwaysRunning,
{
    let _ = options;
    Ok(crate::tree::LeafFactory::AlwaysRunning)
}

/// The integer-valued entries of an increment's option map, in order;
/// entries of any other shape are skipped.
pub open spec fn int_entries(entries: Seq<(Seq<char>, ValueV)>) -> Seq<(Seq<char>, i64)>
    decreases entries.len(),
{
    if entries.len() == 0 {
        Seq::empty()
    } else {
        let rest = int_entries(entries.drop_first());
        match entries[0].1 {
            ValueV::Int(n) => if i64::MIN <= n <= i64::MAX {
                seq![(entries[0].0, n as i64)] + rest
            } else {
                rest
            },
            _ => rest,
        }
    }
}

/// What the `increment` factory makes of its options: the map's
/// integer entries, each an amount to add to the variable of its key.
pub open spec fn spec_increment(opt: Option<ValueV>) -> Result<crate::tree::LeafS, Seq<char>> {
    match opt {
        Some(ValueV::Dict(entries)) => Ok(crate::tree::LeafS::Increment(int_entries(entries))),
        other => Err("Expected hashmap, found "@ + crate::expressions::spec_opt_desc(other)),
    }
}

/// Prepends already-kept entries to the integer entries of the rest.
pub open spec fn prepend_ints(
    acc: Seq<(Seq<char>, i64)>,
    rest: Seq<(Seq<char>, i64)>,
) -> Seq<(Seq<char>, i64)> {
    acc + rest
}

/// Builds an `increment` leaf factory: each integer-valued entry of the
/// option map adds its value to the context variable of its key.
pub fn increment(options: &Option<Value>) -> (r: Result<crate::tree::LeafFactory, String>)
    ensures
        ({
            match spec_increment(crate::conditions::opt_view(*options)) {
                Ok(ls) => r matches Ok(f) && f@ == ls,
                Err(m) => r matches Err(s) && s@ == m,
            }
        }),
{
    let entries = match options {
        Some(Value::Dict(entries)) => entries,
        other => {
            let mut m = String::from_str("Expected hashmap, found ");
            match other {
                None => m.append("nothing"),
                Some(v) => {
                    let d = crate::expressions::value_desc_exec(v);
                    m.append(d.as_str());
                }
            }
            return Err(m);
        }
    };
    let ghost evs = crate::value::entry_views(entries@);
    proof {
        crate::value::lemma_entry_views(entries@);
        assert(evs.skip(0) =~= evs);
    }
    let mut items: Vec<(String, i64)> = Vec::new();
    let mut i: usize = 0;
    proof {
        assert(inc_views(items@) =~= Seq::<(Seq<char>, i64)>::empty());
        assert(inc_views(items@) + int_entries(evs) =~= int_entries(evs));
    }
    while i < entries.len()
        invariant
            0 <= i <= entries@.len(),
            evs == crate::value::entry_views(entries@),
            evs.len() == entries@.len(),
            forall|j: int|
                0 <= j < entries@.len() ==> evs[j] == (
                    entries@[j].0@,
                    crate::value::value_view(entries@[j].1),
                ),
            inc_views(items@) + int_entries(evs.skip(i as int)) == int_entries(evs),
        decreases entries@.len() - i,
    {
        let ghost rem = evs.skip(i as int);
        let ghost prev = inc_views(items@);
        proof {
            assert(rem.len() > 0);
            assert(rem[0] == evs[i as int]);
            assert(rem.drop_first() =~= evs.skip(i as int + 1));
        }
        match &entries[i].1 {
            Value::Integer(n) => {
                items.push((entries[i].0.clone(), *n));
                proof {
                    assert(inc_views(items@) =~= prev.push((rem[0].0, n as i64)));
                    assert(int_entries(rem)
                        == seq![(rem[0].0, n as i64)] + int_entries(rem.drop_first()));
                    assert(prev + (seq![(rem[0].0, n as i64)] + int_entries(rem.drop_first()))
                        =~= inc_views(items@) + int_entries(rem.drop_first()));
                }
            }
            _ => {
                proof {
                    assert(int_entries(rem) == int_entries(rem.drop_first()));
                }
            }
        }
        i += 1;
    }
    proof {
        assert(evs.skip(i as int).len() == 0);
        assert(int_entries(evs.skip(i as int)) =~= Seq::<(Seq<char>, i64)>::empty());
        assert(inc_views(items@) + int_entries(evs.skip(i as int)) =~= inc_views(items@));
    }
    Ok(crate::tree::LeafFactory::Increment(Increment { items }))
}

/// What a registry lookup makes of a leaf invocation: the factory
/// registered under the name, applied to the options.
pub open spec fn spec_generate_leaf(
    reg: Map<Seq<char>, LeafConstructor>,
    name: Seq<char>,
    opt: Option<ValueV>,
) -> Result<crate::tree::LeafS, Seq<char>> {
    if !reg.dom().contains(name) {
        Err("Could not find leaf with name "@ + name)
    } else {
        match reg[name] {
            LeafConstructor::PrintText => spec_print_text(opt),
            LeafConstructor::AlwaysRunning => Ok(crate::tree::LeafS::AlwaysRunning),
            LeafConstructor::EvaluateInt => crate::expressions::spec_evaluate_int_node(opt),
            LeafConstructor::CheckCondition => crate::conditions::spec_check_condition_node(opt),
            LeafConstructor::Increment => spec_increment(opt),
        }
    }
}

/// The registry binding leaf names in source text to the factories
/// that build their behaviours; an entry registered later replaces an
/// earlier one with the same name.
#[derive(Debug)]
pub struct LeavesCollection {
    entries: Vec<(String, LeafConstructor)>,
}

impl View for LeavesCollection {
    type V = Map<Seq<char>, LeafConstructor>;

    closed spec fn view(&self) -> Map<Seq<char>, LeafConstructor> {
        registry_view(self.entries@)
    }
}

impl LeavesCollection {
    /// An empty registry.
    pub fn new() -> (c: LeavesCollection)
        ensures
            c@ == Map::<Seq<char>, LeafConstructor>::empty(),
    {
        LeavesCollection { entries: Vec::new() }
    }

    /// Finds the first entry with the given key.
    fn position_of(&self, key: &str) -> (r: Option<usize>)
        ensures
            match r {
                Some(i) => i < self.entries@.len() && self.entries@[i as int].0@ == key@
                    && (forall|j: int| 0 <= j < i ==> self.entries@[j].0@ != key@),
                None => forall|j: int|
                    0 <= j < self.entries@.len() ==> self.entries@[j].0@ != key@,
            },
    {
        let mut i: usize = 0;
        while i < self.entries.len()
            invariant
                0 <= i <= self.entries@.len(),
                forall|j: int| 0 <= j < i ==> self.entries@[j].0@ != key@,
            decreases self.entries@.len() - i,
        {
            if str_eq(self.entries[i].0.as_str(), key) {
                return Some(i);
            }
            i += 1;
        }
        None
    }

    /// Registers a leaf factory under a name, replacing any factory
    /// already registered under it.
    pub fn register_function(&mut self, key: String, f: LeafConstructor)
        ensures
            final(self)@ == old(self)@.insert(key@, f),
    {
        match self.position_of(key.as_str()) {
            Some(i) => {
                proof {
                    lemma_registry_view_update(self.entries@, i as int, key, f);
                }
                self.entries[i] = (key, f);
            }
            None => {
                proof {
                    lemma_registry_view_push(self.entries@, key, f);
                }
                self.entries.push((key, f));
            }
        }
    }

    /// The registry prepopulated with the standard leaf library.
    pub fn standard() -> (c: LeavesCollection)
        ensures
            c@ == Map::<Seq<char>, LeafConstructor>::empty()
                .insert("print_text"@, LeafConstructor::PrintText)
                .insert("always_running"@, LeafConstructor::AlwaysRunning)
                .insert("evaluate_int"@, LeafConstructor::EvaluateInt)
                .insert("check_condition"@, LeafConstructor::CheckCondition)
                .insert("increment"@, LeafConstructor::Increment),
    {
        let mut c = LeavesCollection::new();
        c.register_function(String::from_str("print_text"), LeafConstructor::PrintText);
        c.register_function(String::from_str("always_running"), LeafConstructor::AlwaysRunning);
        c.register_function(String::from_str("evaluate_int"), LeafConstructor::EvaluateInt);
        c.register_function(String::from_str("check_condition"), LeafConstructor::CheckCondition);
        c.register_function(String::from_str("increment"), LeafConstructor::Increment);
        c
    }

    /// Consults the registry for a leaf name and builds the leaf's
    /// factory from the options.
    pub fn generate_leaf(&self, name: &str, option: &Option<Value>) -> (r: Result<
        crate::tree::LeafFactory,
        String,
    >)
        ensures
            ({
                match spec_generate_leaf(self@, name@, crate::conditions::opt_view(*option)) {
                    Ok(ls) => r matches Ok(f) && f@ == ls,
                    Err(m) => r matches Err(s) && s@ == m,
                }
            }),
    {
        match self.position_of(name) {
            None => {
                proof {
                    lemma_registry_view_absent(self.entries@, name@);
                }
                let mut m = String::from_str("Could not find leaf with name ");
                m.append(name);
                Err(m)
            }
            Some(i) => {
                proof {
                    lemma_registry_view_first(self.entries@, i as int);
                }
                match self.entries[i].1 {
                    LeafConstructor::PrintText => print_text(option),
                    LeafConstructor::AlwaysRunning => always_running(option),
                    LeafConstructor::EvaluateInt => crate::expressions::evaluate_int_node(option),
                    LeafConstructor::CheckCondition => crate::conditions::check_condition_node(
                        option,
                    ),
                    LeafConstructor::Increment => increment(option),
                }
            }
        }
    }
}

} // verus!
