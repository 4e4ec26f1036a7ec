//! The extended grammar DSL: rule trees, combinators, and validation.
//!
//! A `Grammar` bundles ordered token names, ordered start-symbol names, and an
//! ordered list of named rules. `validate` checks the well-formedness rules
//! (no empty or duplicated token/start lists, starts name defined rules, token
//! and rule names are disjoint, every `Sym` reference is defined).
use vstd::prelude::*;
use vstd::string::*;

verus! {

pub struct Grammar {
    pub tokens: Vec<String>,
    pub start: Vec<String>,
    pub rules: Vec<(String, Rule)>,
}

/// A rule of the extended grammar, built by the combinators below.
pub struct Rule(pub RuleInner);

pub enum RuleInner {
    Sym(String),
    Sequence(Vec<RuleInner>),
    Or(Vec<RuleInner>),
    Many(Box<RuleRep>),
    Many1(Box<RuleRep>),
    Opt(Box<RuleRep>),
    SepBy(Box<RuleSepBy>),
    SepBy1(Box<RuleSepBy>),
    Prec(Box<RulePrec>),
}

pub struct RuleRep {
    pub rule: RuleInner,
}

pub struct RuleSepBy {
    pub sep: RuleInner,
    pub rule: RuleInner,
}

pub struct RulePrec {
    pub prec: u16,
    pub assoc: Assoc,
    pub rule: RuleInner,
}

#[derive(Clone, Copy, PartialEq, Eq, Structural, Debug)]
pub enum Assoc {
    Nonassoc,
    Left,
    Right,
}

impl Default for Assoc {
    fn default() -> (r: Self)
        ensures
            r == Assoc::Nonassoc,
    {
        Assoc::Nonassoc
    }
}

// ---------------------------------------------------------------------------
// Spec-level structure of rules
// ---------------------------------------------------------------------------

/// The views of a list of names.
pub open spec fn names_of(v: Seq<String>) -> Seq<Seq<char>> {
    v.map_values(|s: String| s@)
}

/// Membership of a name in a list of names.
pub open spec fn str_in(ns: Seq<Seq<char>>, s: Seq<char>) -> bool {
    exists|i: int| 0 <= i < ns.len() && ns[i] == s
}

/// Whether a list of names contains the same name twice.
pub open spec fn has_dup(ns: Seq<Seq<char>>) -> bool {
    exists|i: int, j: int| 0 <= i < j < ns.len() && ns[i] == ns[j]
}

/// A structural size measure; drives termination of lowering. A `SepBy` is
/// strictly larger than the `SepBy1` it expands to.
pub open spec fn rule_size(r: RuleInner) -> nat
    decreases r,
{
    match r {
        RuleInner::Sym(_) => 1,
        RuleInner::Sequence(rs) => 1 + rules_size(rs@),
        RuleInner::Or(rs) => 1 + rules_size(rs@),
        RuleInner::Many(b) => 1 + rule_size(b.rule),
        RuleInner::Many1(b) => 1 + rule_size(b.rule),
        RuleInner::Opt(b) => 1 + rule_size(b.rule),
        RuleInner::SepBy(b) => 2 + rule_size(b.sep) + rule_size(b.rule),
        RuleInner::SepBy1(b) => 1 + rule_size(b.sep) + rule_size(b.rule),
        RuleInner::Prec(b) => 1 + rule_size(b.rule),
    }
}

pub open spec fn rules_size(rs: Seq<RuleInner>) -> nat
    decreases rs,
{
    if rs.len() == 0 {
        0
    } else {
        rule_size(rs[0]) + rules_size(rs.drop_first())
    }
}

pub proof fn lemma_rules_size_element(rs: Seq<RuleInner>, i: int)
    requires
        0 <= i < rs.len(),
    ensures
        rule_size(rs[i]) <= rules_size(rs),
    decreases rs.len(),
{
    if i > 0 {
        lemma_rules_size_element(rs.drop_first(), i - 1);
    }
}

/// Every `Sym` inside the rule names a defined token or rule.
pub open spec fn rule_valid(r: RuleInner, names: Seq<Seq<char>>) -> bool
    decreases r,
{
    match r {
        RuleInner::Sym(s) => str_in(names, s@),
        RuleInner::Sequence(rs) => rules_valid(rs@, names),
        RuleInner::Or(rs) => rules_valid(rs@, names),
        RuleInner::Many(b) => rule_valid(b.rule, names),
        RuleInner::Many1(b) => rule_valid(b.rule, names),
        RuleInner::Opt(b) => rule_valid(b.rule, names),
        RuleInner::SepBy(b) => rule_valid(b.sep, names) && rule_valid(b.rule, names),
        RuleInner::SepBy1(b) => rule_valid(b.sep, names) && rule_valid(b.rule, names),
        RuleInner::Prec(b) => rule_valid(b.rule, names),
    }
}

pub open spec fn rules_valid(rs: Seq<RuleInner>, names: Seq<Seq<char>>) -> bool
    decreases rs,
{
    rs.len() == 0 || (rule_valid(rs[0], names) && rules_valid(rs.drop_first(), names))
}

pub proof fn lemma_rules_valid_element(rs: Seq<RuleInner>, names: Seq<Seq<char>>, i: int)
    requires
        rules_valid(rs, names),
        0 <= i < rs.len(),
    ensures
        rule_valid(rs[i], names),
    decreases rs.len(),
{
    if i > 0 {
        lemma_rules_valid_element(rs.drop_first(), names, i - 1);
    }
}

/// The first undefined symbol reference inside the rule, in traversal order.
pub open spec fn first_undef(r: RuleInner, names: Seq<Seq<char>>) -> Option<Seq<char>>
    decreases r,
{
    match r {
        RuleInner::Sym(s) => if str_in(names, s@) {
            None
        } else {
            Some(s@)
        },
        RuleInner::Sequence(rs) => first_undef_list(rs@, names),
        RuleInner::Or(rs) => first_undef_list(rs@, names),
        RuleInner::Many(b) => first_undef(b.rule, names),
        RuleInner::Many1(b) => first_undef(b.rule, names),
        RuleInner::Opt(b) => first_undef(b.rule, names),
        RuleInner::SepBy(b) => match first_undef(b.sep, names) {
            Some(e) => Some(e),
            None => first_undef(b.rule, names),
        },
        RuleInner::SepBy1(b) => match first_undef(b.sep, names) {
            Some(e) => Some(e),
            None => first_undef(b.rule, names),
        },
        RuleInner::Prec(b) => first_undef(b.rule, names),
    }
}

pub open spec fn first_undef_list(rs: Seq<RuleInner>, names: Seq<Seq<char>>) -> Option<Seq<char>>
    decreases rs,
{
    if rs.len() == 0 {
        None
    } else {
        match first_undef(rs[0], names) {
            Some(e) => Some(e),
            None => first_undef_list(rs.drop_first(), names),
        }
    }
}

/// Finding no undefined symbol is the same as being valid.
pub proof fn lemma_first_undef_none(r: RuleInner, names: Seq<Seq<char>>)
    ensures
        (first_undef(r, names) is None) == rule_valid(r, names),
    decreases r,
{
    match r {
        RuleInner::Sym(_) => {},
        RuleInner::Sequence(rs) => lemma_first_undef_list_none(rs@, names),
        RuleInner::Or(rs) => lemma_first_undef_list_none(rs@, names),
        RuleInner::Many(b) => lemma_first_undef_none(b.rule, names),
        RuleInner::Many1(b) => lemma_first_undef_none(b.rule, names),
        RuleInner::Opt(b) => lemma_first_undef_none(b.rule, names),
        RuleInner::SepBy(b) => {
            lemma_first_undef_none(b.sep, names);
            lemma_first_undef_none(b.rule, names);
        },
        RuleInner::SepBy1(b) => {
            lemma_first_undef_none(b.sep, names);
            lemma_first_undef_none(b.rule, names);
        },
        RuleInner::Prec(b) => lemma_first_undef_none(b.rule, names),
    }
}

pub proof fn lemma_first_undef_list_none(rs: Seq<RuleInner>, names: Seq<Seq<char>>)
    ensures
        (first_undef_list(rs, names) is None) == rules_valid(rs, names),
    decreases rs,
{
    if rs.len() > 0 {
        lemma_first_undef_none(rs[0], names);
        lemma_first_undef_list_none(rs.drop_first(), names);
    }
}

// ---------------------------------------------------------------------------
// Combinators
// ---------------------------------------------------------------------------

/// A reference to a named token or rule.
pub fn sym(s: &str) -> (r: Rule)
    ensures
        r.0 matches RuleInner::Sym(n) && n@ == s@,
{
    Rule(RuleInner::Sym(s.to_owned()))
}

/// A sequence of rules, matched one after the other.
pub fn seq(rules: Vec<Rule>) -> (r: Rule)
    ensures
        r.0 matches RuleInner::Sequence(v) && v@ == rules@.map_values(|x: Rule| x.0),
{
    let ghost orig = rules@;
    let mut rules = rules;
    let mut inner: Vec<RuleInner> = Vec::new();
    while rules.len() > 0
        invariant
            inner@.len() + rules@.len() == orig.len(),
            rules@ == orig.subrange(inner@.len() as int, orig.len() as int),
            inner@ == orig.subrange(0, inner@.len() as int).map_values(|x: Rule| x.0),
        decreases rules@.len(),
    {
        let x = rules.remove(0);
        inner.push(x.0);
        proof {
            assert(rules@ == orig.subrange(inner@.len() as int, orig.len() as int));
            assert(inner@ =~= orig.subrange(0, inner@.len() as int).map_values(|x: Rule| x.0));
        }
    }
    proof {
        assert(inner@ =~= orig.map_values(|x: Rule| x.0));
    }
    Rule(RuleInner::Sequence(inner))
}

/// Zero or more repetitions of `rule`.
pub fn many(rule: Rule) -> (r: Rule)
    ensures
        r.0 matches RuleInner::Many(b) && b.rule == rule.0,
{
    Rule(RuleInner::Many(Box::new(RuleRep { rule: rule.0 })))
}

/// One or more repetitions of `rule`.
pub fn some(rule: Rule) -> (r: Rule)
    ensures
        r.0 matches RuleInner::Many1(b) && b.rule == rule.0,
{
    Rule(RuleInner::Many1(Box::new(RuleRep { rule: rule.0 })))
}

/// Zero or one occurrence of `rule`.
pub fn option(rule: Rule) -> (r: Rule)
    ensures
        r.0 matches RuleInner::Opt(b) && b.rule == rule.0,
{
    Rule(RuleInner::Opt(Box::new(RuleRep { rule: rule.0 })))
}

/// Zero or more occurrences of `rule`, separated by `sep`.
pub fn sep_by(sep: Rule, rule: Rule) -> (r: Rule)
    ensures
        r.0 matches RuleInner::SepBy(b) && b.sep == sep.0 && b.rule == rule.0,
{
    Rule(RuleInner::SepBy(Box::new(RuleSepBy { sep: sep.0, rule: rule.0 })))
}

/// One or more occurrences of `rule`, separated by `sep`.
pub fn sep_by1(sep: Rule, rule: Rule) -> (r: Rule)
    ensures
        r.0 matches RuleInner::SepBy1(b) && b.sep == sep.0 && b.rule == rule.0,
{
    Rule(RuleInner::SepBy1(Box::new(RuleSepBy { sep: sep.0, rule: rule.0 })))
}

/// Attaches a precedence level and associativity to `rule`.
pub fn prec(level: u16, assoc: Assoc, rule: Rule) -> (r: Rule)
    ensures
        r.0 matches RuleInner::Prec(b) && b.prec == level && b.assoc == assoc
            && b.rule == rule.0,
{
    Rule(RuleInner::Prec(Box::new(RulePrec { prec: level, assoc, rule: rule.0 })))
}

/// The alternatives a rule contributes when composed under `or`.
pub open spec fn or_alts(r: RuleInner) -> Seq<RuleInner> {
    match r {
        RuleInner::Or(v) => v@,
        _ => seq![r],
    }
}

impl Rule {
    /// Alternation. `Or` is associative and flattens on composition, keeping
    /// authoring order.
    pub fn or(self, rhs: Rule) -> (r: Rule)
        ensures
            r.0 matches RuleInner::Or(v) && v@ == or_alts(self.0) + or_alts(rhs.0),
    {
        match (self.0, rhs.0) {
            (RuleInner::Or(mut x), RuleInner::Or(mut y)) => {
                x.append(&mut y);
                Rule(RuleInner::Or(x))
            },
            (RuleInner::Or(mut x), y) => {
                x.push(y);
                Rule(RuleInner::Or(x))
            },
            (x, RuleInner::Or(mut y)) => {
                y.insert(0, x);
                Rule(RuleInner::Or(y))
            },
            (x, y) => {
                let mut v: Vec<RuleInner> = Vec::new();
                v.push(x);
                v.push(y);
                proof {
                    assert(v@ =~= seq![v@[0], v@[1]]);
                }
                Rule(RuleInner::Or(v))
            },
        }
    }
}

// ---------------------------------------------------------------------------
// Grammar construction and validation
// ---------------------------------------------------------------------------

/// String equality by contents.
fn str_eq(a: &String, b: &String) -> (r: bool)
    ensures
        r == (a@ == b@),
{
    a.eq(b)
}

/// Linear search of a name among a list of names.
#[verifier::loop_isolation(false)]
fn contains_name(v: &Vec<String>, s: &String) -> (r: bool)
    ensures
        r == str_in(names_of(v@), s@),
{
    let mut i: usize = 0;
    while i < v.len()
        invariant
            i <= v@.len(),
            forall|j: int| 0 <= j < i ==> names_of(v@)[j] != s@,
        decreases v@.len() - i,
    {
        if str_eq(&v[i], s) {
            proof {
                assert(names_of(v@)[i as int] == s@);
            }
            return true;
        }
        i = i + 1;
    }
    false
}

/// Whether the list holds two equal names.
#[verifier::loop_isolation(false)]
pub(crate) fn find_dup(v: &Vec<String>) -> (r: bool)
    ensures
        r == has_dup(names_of(v@)),
{
    let mut j: usize = 1;
    while j < v.len()
        invariant
            1 <= j || v@.len() == 0,
            j <= v@.len() || v@.len() == 0,
            forall|a: int, b: int| 0 <= a < b < j && b < v@.len()
                ==> names_of(v@)[a] != names_of(v@)[b],
        decreases v@.len() - j,
    {
        let mut i: usize = 0;
        while i < j
            invariant
                i <= j < v@.len(),
                forall|a: int| 0 <= a < i ==> names_of(v@)[a] != names_of(v@)[j as int],
            decreases j - i,
        {
            if str_eq(&v[i], &v[j]) {
                proof {
                    assert(names_of(v@)[i as int] == names_of(v@)[j as int]);
                }
                return true;
            }
            i = i + 1;
        }
        j = j + 1;
    }
    false
}

/// Builds a `Grammar`, rejecting duplicate rule names.
pub fn grammar(tokens: Vec<String>, start: Vec<String>, rules: Vec<(String, Rule)>) -> (r: Result<
    Grammar,
    String,
>)
    ensures
        match r {
            Ok(g) => {
                &&& !has_dup(g.rules@.map_values(|p: (String, Rule)| p.0@))
                &&& g.tokens == tokens
                &&& g.start == start
                &&& g.rules == rules
            },
            Err(e) => {
                &&& has_dup(rules@.map_values(|p: (String, Rule)| p.0@))
                &&& e@ == "duplicate rule found in rule list"@
            },
        },
{
    let mut names: Vec<String> = Vec::new();
    let mut i: usize = 0;
    while i < rules.len()
        invariant
            i <= rules@.len(),
            names@.len() == i,
            forall|j: int| 0 <= j < i ==> names@[j]@ == rules@[j].0@,
        decreases rules@.len() - i,
    {
        names.push(rules[i].0.clone());
        i = i + 1;
    }
    proof {
        assert(names_of(names@) =~= rules@.map_values(|p: (String, Rule)| p.0@));
    }
    if find_dup(&names) {
        return Err("duplicate rule found in rule list".to_owned());
    }
    Ok(Grammar { tokens, start, rules })
}

/// The names of the grammar's rules, in declaration order.
pub open spec fn spec_rule_names(g: Grammar) -> Seq<Seq<char>> {
    g.rules@.map_values(|p: (String, Rule)| p.0@)
}

/// All defined names: tokens first, then rules.
pub open spec fn spec_all_names(g: Grammar) -> Seq<Seq<char>> {
    names_of(g.tokens@) + spec_rule_names(g)
}

/// The rule bodies, in declaration order.
pub open spec fn spec_rule_bodies(g: Grammar) -> Seq<RuleInner> {
    g.rules@.map_values(|p: (String, Rule)| p.1.0)
}

/// Everything `validate` checks.
pub open spec fn grammar_valid(g: Grammar) -> bool {
    &&& g.tokens@.len() > 0
    &&& !has_dup(names_of(g.tokens@))
    &&& g.start@.len() > 0
    &&& !has_dup(names_of(g.start@))
    &&& forall|i: int| 0 <= i < g.start@.len()
        ==> str_in(spec_rule_names(g), #[trigger] g.start@[i]@)
    &&& forall|i: int| 0 <= i < g.tokens@.len()
        ==> !str_in(spec_rule_names(g), #[trigger] g.tokens@[i]@)
    &&& rules_valid(spec_rule_bodies(g), spec_all_names(g))
}


/// The first start name that no rule defines, scanning from position `i`.
pub open spec fn first_missing_start(g: Grammar, i: int) -> Option<int>
    decreases g.start@.len() - i,
{
    if i < 0 || i >= g.start@.len() {
        None
    } else if !str_in(spec_rule_names(g), g.start@[i]@) {
        Some(i)
    } else {
        first_missing_start(g, i + 1)
    }
}

/// The first token whose name a rule also uses, scanning from position `i`.
pub open spec fn first_colliding_token(g: Grammar, i: int) -> Option<int>
    decreases g.tokens@.len() - i,
{
    if i < 0 || i >= g.tokens@.len() {
        None
    } else if str_in(spec_rule_names(g), g.tokens@[i]@) {
        Some(i)
    } else {
        first_colliding_token(g, i + 1)
    }
}

/// The first undefined symbol among the rule bodies, scanning from rule `i`.
pub open spec fn first_undef_rule(g: Grammar, i: int) -> Option<Seq<char>>
    decreases g.rules@.len() - i,
{
    if i < 0 || i >= g.rules@.len() {
        None
    } else {
        match first_undef(spec_rule_bodies(g)[i], spec_all_names(g)) {
            Some(n) => Some(n),
            None => first_undef_rule(g, i + 1),
        }
    }
}

/// The message `validate` returns, if any: the checks run in this order and
/// the first violated one is reported.
pub open spec fn validate_err(g: Grammar) -> Option<Seq<char>> {
    if g.tokens@.len() == 0 {
        Some("token list is empty"@)
    } else if has_dup(names_of(g.tokens@)) {
        Some("duplicate token found in token list"@)
    } else if g.start@.len() == 0 {
        Some("start rule list is empty"@)
    } else if has_dup(names_of(g.start@)) {
        Some("duplicate token found in start list"@)
    } else if first_missing_start(g, 0) is Some {
        Some("start rule '"@ + g.start@[first_missing_start(g, 0)->Some_0]@
            + "' is undefined"@)
    } else if first_colliding_token(g, 0) is Some {
        Some("token name collides with rule name"@)
    } else {
        match first_undef_rule(g, 0) {
            Some(n) => Some("symbol '"@ + n + "' is undefined"@),
            None => None,
        }
    }
}

/// A scan that finds its first hit at `i` reports `i`.
proof fn lemma_first_missing_start_at(g: Grammar, k: int, i: int)
    requires
        0 <= k <= i < g.start@.len(),
        forall|j: int| k <= j < i ==> str_in(spec_rule_names(g), #[trigger] g.start@[j]@),
        !str_in(spec_rule_names(g), g.start@[i]@),
    ensures
        first_missing_start(g, k) == Some(i),
    decreases i - k,
{
    if k < i {
        lemma_first_missing_start_at(g, k + 1, i);
    }
}

proof fn lemma_first_missing_start_none(g: Grammar, k: int)
    requires
        0 <= k,
        forall|j: int| k <= j < g.start@.len()
            ==> str_in(spec_rule_names(g), #[trigger] g.start@[j]@),
    ensures
        first_missing_start(g, k) is None,
    decreases g.start@.len() - k,
{
    if k < g.start@.len() {
        lemma_first_missing_start_none(g, k + 1);
    }
}

proof fn lemma_first_colliding_token_at(g: Grammar, k: int, i: int)
    requires
        0 <= k <= i < g.tokens@.len(),
        forall|j: int| k <= j < i ==> !str_in(spec_rule_names(g), #[trigger] g.tokens@[j]@),
        str_in(spec_rule_names(g), g.tokens@[i]@),
    ensures
        first_colliding_token(g, k) == Some(i),
    decreases i - k,
{
    if k < i {
        lemma_first_colliding_token_at(g, k + 1, i);
    }
}

proof fn lemma_first_colliding_token_none(g: Grammar, k: int)
    requires
        0 <= k,
        forall|j: int| k <= j < g.tokens@.len()
            ==> !str_in(spec_rule_names(g), #[trigger] g.tokens@[j]@),
    ensures
        first_colliding_token(g, k) is None,
    decreases g.tokens@.len() - k,
{
    if k < g.tokens@.len() {
        lemma_first_colliding_token_none(g, k + 1);
    }
}

proof fn lemma_first_undef_rule_at(g: Grammar, k: int, i: int)
    requires
        0 <= k <= i < g.rules@.len(),
        forall|j: int| k <= j < i
            ==> rule_valid(#[trigger] spec_rule_bodies(g)[j], spec_all_names(g)),
        first_undef(spec_rule_bodies(g)[i], spec_all_names(g)) is Some,
    ensures
        first_undef_rule(g, k) == first_undef(spec_rule_bodies(g)[i], spec_all_names(g)),
    decreases i - k,
{
    if k < i {
        lemma_first_undef_none(spec_rule_bodies(g)[k], spec_all_names(g));
        lemma_first_undef_rule_at(g, k + 1, i);
    }
}

proof fn lemma_first_undef_rule_none(g: Grammar, k: int)
    requires
        0 <= k,
        forall|j: int| k <= j < g.rules@.len()
            ==> rule_valid(#[trigger] spec_rule_bodies(g)[j], spec_all_names(g)),
    ensures
        first_undef_rule(g, k) is None,
    decreases g.rules@.len() - k,
{
    if k < g.rules@.len() {
        lemma_first_undef_none(spec_rule_bodies(g)[k], spec_all_names(g));
        lemma_first_undef_rule_none(g, k + 1);
    }
}

impl Grammar {
    /// Checks the grammar's well-formedness rules, reporting the first
    /// violation in checking order.
    #[verifier::loop_isolation(false)]
    pub fn validate(&self) -> (r: Result<(), String>)
        ensures
            r.is_ok() == grammar_valid(*self),
            match r {
                Ok(()) => validate_err(*self) is None,
                Err(e) => validate_err(*self) == Some(e@),
            },
    {
        if self.tokens.len() == 0 {
            return Err("token list is empty".to_owned());
        }
        if find_dup(&self.tokens) {
            return Err("duplicate token found in token list".to_owned());
        }
        if self.start.len() == 0 {
            return Err("start rule list is empty".to_owned());
        }
        if find_dup(&self.start) {
            return Err("duplicate token found in start list".to_owned());
        }

        let mut rule_names: Vec<String> = Vec::new();
        let mut i: usize = 0;
        while i < self.rules.len()
            invariant
                i <= self.rules@.len(),
                rule_names@.len() == i,
                forall|j: int| 0 <= j < i ==> rule_names@[j]@ == self.rules@[j].0@,
            decreases self.rules@.len() - i,
        {
            rule_names.push(self.rules[i].0.clone());
            i = i + 1;
        }
        proof {
            assert(names_of(rule_names@) =~= spec_rule_names(*self));
        }

        let mut i: usize = 0;
        while i < self.start.len()
            invariant
                i <= self.start@.len(),
                names_of(rule_names@) == spec_rule_names(*self),
                forall|j: int| 0 <= j < i ==> str_in(spec_rule_names(*self), #[trigger] self.start@[j]@),
            decreases self.start@.len() - i,
        {
            if !contains_name(&rule_names, &self.start[i]) {
                proof {
                    lemma_first_missing_start_at(*self, 0, i as int);
                }
                let msg = "start rule '".to_owned().concat(self.start[i].as_str()).concat(
                    "' is undefined",
                );
                return Err(msg);
            }
            i = i + 1;
        }

        let mut i: usize = 0;
        while i < self.tokens.len()
            invariant
                i <= self.tokens@.len(),
                names_of(rule_names@) == spec_rule_names(*self),
                forall|j: int| 0 <= j < i
                    ==> !str_in(spec_rule_names(*self), #[trigger] self.tokens@[j]@),
            decreases self.tokens@.len() - i,
        {
            if contains_name(&rule_names, &self.tokens[i]) {
                proof {
                    lemma_first_missing_start_none(*self, 0);
                    lemma_first_colliding_token_at(*self, 0, i as int);
                }
                return Err("token name collides with rule name".to_owned());
            }
            i = i + 1;
        }

        // All defined names: tokens first, then rules.
        let mut all_names: Vec<String> = Vec::new();
        let mut i: usize = 0;
        while i < self.tokens.len()
            invariant
                i <= self.tokens@.len(),
                all_names@.len() == i,
                forall|j: int| 0 <= j < i ==> all_names@[j]@ == self.tokens@[j]@,
            decreases self.tokens@.len() - i,
        {
            all_names.push(self.tokens[i].clone());
            i = i + 1;
        }
        let mut i: usize = 0;
        while i < rule_names.len()
            invariant
                i <= rule_names@.len(),
                all_names@.len() == self.tokens@.len() + i,
                forall|j: int| 0 <= j < self.tokens@.len() ==> all_names@[j]@ == self.tokens@[j]@,
                forall|j: int| 0 <= j < i
                    ==> all_names@[self.tokens@.len() + j]@ == rule_names@[j]@,
            decreases rule_names@.len() - i,
        {
            all_names.push(rule_names[i].clone());
            i = i + 1;
        }
        proof {
            assert(names_of(all_names@) =~= spec_all_names(*self));
        }

        let mut i: usize = 0;
        while i < self.rules.len()
            invariant
                i <= self.rules@.len(),
                names_of(all_names@) == spec_all_names(*self),
                forall|j: int| 0 <= j < i
                    ==> rule_valid(#[trigger] spec_rule_bodies(*self)[j], spec_all_names(*self)),
            decreases self.rules@.len() - i,
        {
            match self.rules[i].1.0.validate(&all_names) {
                Ok(()) => {},
                Err(e) => {
                    proof {
                        assert(spec_rule_bodies(*self)[i as int] == self.rules@[i as int].1.0);
                        lemma_rules_valid_not(spec_rule_bodies(*self), spec_all_names(*self),
                            i as int);
                        lemma_first_missing_start_none(*self, 0);
                        lemma_first_colliding_token_none(*self, 0);
                        lemma_first_undef_rule_at(*self, 0, i as int);
                    }
                    return Err(e);
                },
            }
            i = i + 1;
        }
        proof {
            lemma_rules_valid_all(spec_rule_bodies(*self), spec_all_names(*self));
            lemma_first_missing_start_none(*self, 0);
            lemma_first_colliding_token_none(*self, 0);
            lemma_first_undef_rule_none(*self, 0);
        }
        Ok(())
    }
}

/// Element-wise validity gives list validity.
proof fn lemma_rules_valid_all(rs: Seq<RuleInner>, names: Seq<Seq<char>>)
    requires
        forall|j: int| 0 <= j < rs.len() ==> rule_valid(#[trigger] rs[j], names),
    ensures
        rules_valid(rs, names),
    decreases rs,
{
    if rs.len() > 0 {
        lemma_rules_valid_all(rs.drop_first(), names);
    }
}

impl RuleInner {
    /// Checks that every `Sym` in this rule names a defined token or rule;
    /// reports the first undefined name in traversal order.
    #[verifier::loop_isolation(false)]
    pub fn validate(&self, names: &Vec<String>) -> (r: Result<(), String>)
        ensures
            r.is_ok() == rule_valid(*self, names_of(names@)),
            r matches Err(e) ==> {
                &&& first_undef(*self, names_of(names@)) matches Some(n)
                &&& e@ == "symbol '"@ + n + "' is undefined"@
            },
        decreases rule_size(*self), 0int,
    {
        proof {
            lemma_first_undef_none(*self, names_of(names@));
        }
        match self {
            RuleInner::Sym(s) => {
                if !contains_name(names, s) {
                    Err("symbol '".to_owned().concat(s.as_str()).concat("' is undefined"))
                } else {
                    Ok(())
                }
            },
            RuleInner::Sequence(rules) => validate_list(rules, names),
            RuleInner::Or(rules) => validate_list(rules, names),
            RuleInner::Many(b) => b.rule.validate(names),
            RuleInner::Many1(b) => b.rule.validate(names),
            RuleInner::Opt(b) => b.rule.validate(names),
            RuleInner::SepBy(b) => {
                match b.sep.validate(names) {
                    Ok(()) => {
                        proof {
                            lemma_first_undef_none(b.sep, names_of(names@));
                        }
                        b.rule.validate(names)
                    },
                    Err(e) => Err(e),
                }
            },
            RuleInner::SepBy1(b) => {
                match b.sep.validate(names) {
                    Ok(()) => {
                        proof {
                            lemma_first_undef_none(b.sep, names_of(names@));
                        }
                        b.rule.validate(names)
                    },
                    Err(e) => Err(e),
                }
            },
            RuleInner::Prec(b) => b.rule.validate(names),
        }
    }
}

/// Validates each rule of a list in order, stopping at the first error.
#[verifier::loop_isolation(false)]
fn validate_list(rules: &Vec<RuleInner>, names: &Vec<String>) -> (r: Result<(), String>)
    ensures
        r.is_ok() == rules_valid(rules@, names_of(names@)),
        r matches Err(e) ==> {
            &&& first_undef_list(rules@, names_of(names@)) matches Some(n)
            &&& e@ == "symbol '"@ + n + "' is undefined"@
        },
    decreases rules_size(rules@), 1int,
{
    let mut i: usize = 0;
    while i < rules.len()
        invariant
            i <= rules@.len(),
            forall|j: int| 0 <= j < i ==> rule_valid(#[trigger] rules@[j], names_of(names@)),
        decreases rules@.len() - i,
    {
        proof {
            lemma_rules_size_element(rules@, i as int);
        }
        match rules[i].validate(names) {
            Ok(()) => {},
            Err(e) => {
                proof {
                    lemma_first_undef_none(rules@[i as int], names_of(names@));
                    lemma_rules_valid_not(rules@, names_of(names@), i as int);
                    lemma_first_undef_list_at(rules@, names_of(names@), i as int);
                    lemma_first_undef_list_none(rules@, names_of(names@));
                }
                return Err(e);
            },
        }
        i = i + 1;
    }
    proof {
        lemma_rules_valid_all_of(rules@, names_of(names@));
        lemma_first_undef_list_none(rules@, names_of(names@));
    }
    Ok(())
}

/// When a prefix is valid and element `i` has an undefined symbol, the list's
/// first undefined symbol is that element's.
proof fn lemma_first_undef_list_at(rs: Seq<RuleInner>, names: Seq<Seq<char>>, i: int)
    requires
        0 <= i < rs.len(),
        forall|j: int| 0 <= j < i ==> rule_valid(#[trigger] rs[j], names),
        first_undef(rs[i], names) is Some,
    ensures
        first_undef_list(rs, names) == first_undef(rs[i], names),
    decreases rs.len(),
{
    if i > 0 {
        lemma_first_undef_none(rs[0], names);
        lemma_first_undef_list_at(rs.drop_first(), names, i - 1);
    }
}

/// Element-wise validity gives list validity (free-seq form).
proof fn lemma_rules_valid_all_of(rs: Seq<RuleInner>, names: Seq<Seq<char>>)
    requires
        forall|j: int| 0 <= j < rs.len() ==> rule_valid(#[trigger] rs[j], names),
    ensures
        rules_valid(rs, names),
    decreases rs,
{
    if rs.len() > 0 {
        lemma_rules_valid_all_of(rs.drop_first(), names);
    }
}

/// One invalid element makes the list invalid.
proof fn lemma_rules_valid_not(rs: Seq<RuleInner>, names: Seq<Seq<char>>, i: int)
    requires
        0 <= i < rs.len(),
        !rule_valid(rs[i], names),
    ensures
        !rules_valid(rs, names),
    decreases rs.len(),
{
    if i > 0 {
        lemma_rules_valid_not(rs.drop_first(), names, i - 1);
    }
}

} // verus!
