use vstd::prelude::*;
use vstd::string::StrSliceExecFns;
use vstd::string::StringExecFns;

use crate::config::FeatureValue;

verus! {

// ----------------------------------------------------------------------------
// Case folding, named after the std functions the library relies on.
// ----------------------------------------------------------------------------

pub uninterp spec fn upper_of(s: Seq<char>) -> Seq<char>;

pub uninterp spec fn lower_of(s: Seq<char>) -> Seq<char>;

/// Relies on str::to_uppercase: the result depends on the characters alone.
#[verifier::external_body]
fn to_upper(s: &str) -> (r: String)
    ensures
        r@ == upper_of(s@),
{
    s.to_uppercase()
}

/// Relies on str::to_lowercase: the result depends on the characters alone.
#[verifier::external_body]
fn to_lower(s: &str) -> (r: String)
    ensures
        r@ == lower_of(s@),
{
    s.to_lowercase()
}

// ----------------------------------------------------------------------------
// Whitespace trimming.
// ----------------------------------------------------------------------------

pub open spec fn is_space(c: char) -> bool {
    c == ' ' || c == '\t' || c == '\n' || c == '\r' || c == '\u{b}' || c == '\u{c}'
}

pub open spec fn trim_start_rec(s: Seq<char>) -> Seq<char>
    decreases s.len(),
{
    if s.len() > 0 && is_space(s[0]) {
        trim_start_rec(s.skip(1))
    } else {
        s
    }
}

pub open spec fn trim_end_rec(s: Seq<char>) -> Seq<char>
    decreases s.len(),
{
    if s.len() > 0 && is_space(s[s.len() - 1]) {
        trim_end_rec(s.drop_last())
    } else {
        s
    }
}

/// The text with surrounding whitespace removed.
pub open spec fn spec_trim(s: Seq<char>) -> Seq<char> {
    trim_end_rec(trim_start_rec(s))
}

fn is_space_exec(c: char) -> (r: bool)
    ensures
        r == is_space(c),
{
    c == ' ' || c == '\t' || c == '\n' || c == '\r' || c == '\u{b}' || c == '\u{c}'
}

proof fn lemma_trim_start_at(s: Seq<char>, k: int)
    requires
        0 <= k <= s.len(),
        forall|j: int| 0 <= j < k ==> is_space(s[j]),
        k < s.len() ==> !is_space(s[k]),
    ensures
        trim_start_rec(s) == s.skip(k),
    decreases k,
{
    if k == 0 {
        assert(s.skip(0) =~= s);
    } else {
        assert(is_space(s[0]));
        lemma_trim_start_at(s.skip(1), k - 1);
        assert(s.skip(1).skip(k - 1) =~= s.skip(k));
    }
}

proof fn lemma_trim_end_at(s: Seq<char>, k: int)
    requires
        0 <= k <= s.len(),
        forall|j: int| k <= j < s.len() ==> is_space(s[j]),
        k > 0 ==> !is_space(s[k - 1]),
    ensures
        trim_end_rec(s) == s.take(k),
    decreases s.len() - k,
{
    if k == s.len() {
        assert(s.take(k) =~= s);
    } else {
        assert(is_space(s[s.len() - 1]));
        lemma_trim_end_at(s.drop_last(), k);
        assert(s.drop_last().take(k) =~= s.take(k));
    }
}

/// The text with surrounding whitespace removed.
pub fn trim_str<'a>(s: &'a str) -> (r: &'a str)
    ensures
        r@ == spec_trim(s@),
{
    let n = s.unicode_len();
    let mut lo: usize = 0;
    while lo < n && is_space_exec(s.get_char(lo))
        invariant
            lo <= n,
            n == s@.len(),
            forall|j: int| 0 <= j < lo ==> is_space(s@[j]),
        decreases n - lo,
    {
        lo = lo + 1;
    }
    let mut hi: usize = n;
    while hi > lo && is_space_exec(s.get_char(hi - 1))
        invariant
            lo <= hi <= n,
            n == s@.len(),
            forall|j: int| hi <= j < n ==> is_space(s@[j]),
        decreases hi,
    {
        hi = hi - 1;
    }
    proof {
        lemma_trim_start_at(s@, lo as int);
        let rest = s@.skip(lo as int);
        assert forall|j: int| (hi - lo) <= j < rest.len() implies is_space(rest[j]) by {
            assert(rest[j] == s@[j + lo]);
        }
        if hi > lo {
            assert(rest[hi - lo - 1] == s@[hi - 1]);
        }
        lemma_trim_end_at(rest, hi - lo);
        assert(rest.take(hi - lo) =~= s@.subrange(lo as int, hi as int));
    }
    s.substring_char(lo, hi)
}

// ----------------------------------------------------------------------------
// Splitting on the literal token `==`.
// ----------------------------------------------------------------------------

/// An occurrence of the separator `==` at position j.
pub open spec fn eq_at(s: Seq<char>, j: int) -> bool {
    0 <= j && j + 1 < s.len() && s[j] == '=' && s[j + 1] == '='
}

/// The position of the leftmost `==`, or -1 if there is none.
pub open spec fn first_eq(s: Seq<char>) -> int
    decreases s.len(),
{
    if s.len() < 2 {
        -1
    } else if s[0] == '=' && s[1] == '=' {
        0
    } else {
        let r = first_eq(s.skip(1));
        if r < 0 {
            -1
        } else {
            r + 1
        }
    }
}

pub open spec fn has_eq(s: Seq<char>) -> bool {
    first_eq(s) >= 0
}

proof fn lemma_first_eq_found(s: Seq<char>, i: int)
    requires
        eq_at(s, i),
        forall|j: int| 0 <= j < i ==> !eq_at(s, j),
    ensures
        first_eq(s) == i,
    decreases i,
{
    if i == 0 {
    } else {
        assert(!eq_at(s, 0));
        assert(eq_at(s.skip(1), i - 1)) by {
            assert(s.skip(1)[i - 1] == s[i]);
            assert(s.skip(1)[i] == s[i + 1]);
        }
        assert forall|j: int| 0 <= j < i - 1 implies !eq_at(s.skip(1), j) by {
            assert(!eq_at(s, j + 1));
            if eq_at(s.skip(1), j) {
                assert(s.skip(1)[j] == s[j + 1]);
                assert(s.skip(1)[j + 1] == s[j + 2]);
            }
        }
        lemma_first_eq_found(s.skip(1), i - 1);
    }
}

proof fn lemma_first_eq_none(s: Seq<char>)
    requires
        forall|j: int| !eq_at(s, j),
    ensures
        first_eq(s) == -1,
    decreases s.len(),
{
    if s.len() < 2 {
    } else {
        assert(!eq_at(s, 0));
        assert forall|j: int| !eq_at(s.skip(1), j) by {
            if eq_at(s.skip(1), j) {
                assert(s.skip(1)[j] == s[j + 1]);
                assert(s.skip(1)[j + 1] == s[j + 2]);
                assert(eq_at(s, j + 1));
            }
        }
        lemma_first_eq_none(s.skip(1));
    }
}

/// Position of the leftmost `==` in the text, if any.
fn find_eq(s: &str) -> (r: Option<usize>)
    ensures
        match r {
            Some(i) => first_eq(s@) == i as int && eq_at(s@, i as int),
            None => first_eq(s@) == -1,
        },
{
    let n = s.unicode_len();
    let mut i: usize = 0;
    while n - i > 1
        invariant
            n == s@.len(),
            i <= n,
            forall|j: int| 0 <= j < i ==> !eq_at(s@, j),
        decreases n - i,
    {
        if s.get_char(i) == '=' && s.get_char(i + 1) == '=' {
            proof {
                lemma_first_eq_found(s@, i as int);
            }
            return Some(i);
        }
        i = i + 1;
    }
    proof {
        assert forall|j: int| !eq_at(s@, j) by {
            if eq_at(s@, j) {
                assert(j + 1 < n);
                assert(0 <= j < i);
            }
        }
        lemma_first_eq_none(s@);
    }
    None
}

// ----------------------------------------------------------------------------
// Quote stripping.
// ----------------------------------------------------------------------------

pub open spec fn is_quote(c: char) -> bool {
    c == '\'' || c == '"'
}

/// The text with a single pair of matching surrounding quotes removed,
/// if present.
pub open spec fn spec_unquote(s: Seq<char>) -> Seq<char> {
    if s.len() >= 2 && s[0] == s[s.len() - 1] && is_quote(s[0]) {
        s.subrange(1, s.len() - 1)
    } else {
        s
    }
}

fn unquote<'a>(s: &'a str) -> (r: &'a str)
    ensures
        r@ == spec_unquote(s@),
{
    let n = s.unicode_len();
    if n >= 2 {
        let f = s.get_char(0);
        let l = s.get_char(n - 1);
        if f == l && (f == '\'' || f == '"') {
            return s.substring_char(1, n - 1);
        }
    }
    s
}

// ----------------------------------------------------------------------------
// The feature context: uppercase flag name -> canonical string value.
// ----------------------------------------------------------------------------

/// The lookup table built from the feature flags, mapping each uppercased
/// flag name to the canonical string rendering of its value.
pub struct FeatureContext {
    pairs: Vec<(String, String)>,
}

/// Folds an association list into a map; a later entry overwrites an
/// earlier one with the same key.
pub open spec fn assoc_map(s: Seq<(String, String)>) -> Map<Seq<char>, Seq<char>>
    decreases s.len(),
{
    if s.len() == 0 {
        Map::empty()
    } else {
        assoc_map(s.drop_last()).insert(s.last().0@, s.last().1@)
    }
}

impl View for FeatureContext {
    type V = Map<Seq<char>, Seq<char>>;

    closed spec fn view(&self) -> Map<Seq<char>, Seq<char>> {
        assoc_map(self.pairs@)
    }
}

pub proof fn lemma_assoc_map_prefix(s: Seq<(String, String)>, k: Seq<char>, i: int)
    requires
        0 <= i <= s.len(),
        forall|j: int| i <= j < s.len() ==> s[j].0@ != k,
    ensures
        assoc_map(s).contains_key(k) == assoc_map(s.take(i)).contains_key(k),
        assoc_map(s.take(i)).contains_key(k) ==> assoc_map(s)[k] == assoc_map(s.take(i))[k],
    decreases s.len() - i,
{
    if i == s.len() {
        assert(s.take(i) =~= s);
    } else {
        assert(s[s.len() - 1].0@ != k);
        lemma_assoc_map_prefix(s.drop_last(), k, i);
        assert(s.drop_last().take(i) =~= s.take(i));
    }
}

impl FeatureContext {
    /// An empty context.
    pub fn new() -> (c: Self)
        ensures
            c@ == Map::<Seq<char>, Seq<char>>::empty(),
    {
        FeatureContext { pairs: Vec::new() }
    }

    /// Stores a value under a name; an existing binding of the same name is
    /// replaced.
    pub fn insert(&mut self, key: String, value: String)
        ensures
            final(self)@ == old(self)@.insert(key@, value@),
    {
        self.pairs.push((key, value));
        proof {
            assert(self.pairs@.drop_last() =~= old(self).pairs@);
        }
    }

    /// Looks a name up; `None` means the flag is absent.
    pub fn get<'a>(&'a self, key: &String) -> (r: Option<&'a String>)
        ensures
            match r {
                Some(v) => self@.contains_key(key@) && v@ == self@[key@],
                None => !self@.contains_key(key@),
            },
    {
        let n = self.pairs.len();
        let mut i: usize = n;
        while i > 0
            invariant
                i <= n,
                n == self.pairs@.len(),
                forall|j: int| i <= j < n ==> self.pairs@[j].0@ != key@,
            decreases i,
    {
            i = i - 1;
            let p = &self.pairs[i];
            if p.0.eq(key) {
                proof {
                    lemma_assoc_map_prefix(self.pairs@, key@, i + 1);
                    let pre = self.pairs@.take(i + 1);
                    assert(pre.drop_last() =~= self.pairs@.take(i as int));
                    assert(pre.last() == self.pairs@[i as int]);
                }
                return Some(&self.pairs[i].1);
            }
        }
        proof {
            lemma_assoc_map_prefix(self.pairs@, key@, 0);
            assert(self.pairs@.take(0) =~= Seq::<(String, String)>::empty());
        }
        None
    }
}

// ----------------------------------------------------------------------------
// Decimal rendering of integer feature values.
// ----------------------------------------------------------------------------

pub open spec fn dec_digit(d: int) -> char {
    if d == 0 {
        '0'
    } else if d == 1 {
        '1'
    } else if d == 2 {
        '2'
    } else if d == 3 {
        '3'
    } else if d == 4 {
        '4'
    } else if d == 5 {
        '5'
    } else if d == 6 {
        '6'
    } else if d == 7 {
        '7'
    } else if d == 8 {
        '8'
    } else {
        '9'
    }
}

/// The canonical decimal digits of a non-negative integer.
pub open spec fn dec_rep(n: nat) -> Seq<char>
    decreases n,
{
    if n < 10 {
        seq![dec_digit(n as int)]
    } else {
        dec_rep(n / 10) + seq![dec_digit((n % 10) as int)]
    }
}

/// The canonical decimal rendering of an integer, with a leading minus
/// sign when negative.
pub open spec fn int_rep(n: int) -> Seq<char> {
    if n < 0 {
        seq!['-'] + dec_rep((-n) as nat)
    } else {
        dec_rep(n as nat)
    }
}

fn push_digit(d: u64, out: &mut String)
    requires
        d < 10,
    ensures
        final(out)@ == old(out)@ + seq![dec_digit(d as int)],
{
    if d == 0 {
        out.append("0");
        proof {
            reveal_strlit("0");
            assert("0"@ =~= seq![dec_digit(0)]);
        }
    } else if d == 1 {
        out.append("1");
        proof {
            reveal_strlit("1");
            assert("1"@ =~= seq![dec_digit(1)]);
        }
    } else if d == 2 {
        out.append("2");
        proof {
            reveal_strlit("2");
            assert("2"@ =~= seq![dec_digit(2)]);
        }
    } else if d == 3 {
        out.append("3");
        proof {
            reveal_strlit("3");
            assert("3"@ =~= seq![dec_digit(3)]);
        }
    } else if d == 4 {
        out.append("4");
        proof {
            reveal_strlit("4");
            assert("4"@ =~= seq![dec_digit(4)]);
        }
    } else if d == 5 {
        out.append("5");
        proof {
            reveal_strlit("5");
            assert("5"@ =~= seq![dec_digit(5)]);
        }
    } else if d == 6 {
        out.append("6");
        proof {
            reveal_strlit("6");
            assert("6"@ =~= seq![dec_digit(6)]);
        }
    } else if d == 7 {
        out.append("7");
        proof {
            reveal_strlit("7");
            assert("7"@ =~= seq![dec_digit(7)]);
        }
    } else if d == 8 {
        out.append("8");
        proof {
            reveal_strlit("8");
            assert("8"@ =~= seq![dec_digit(8)]);
        }
    } else {
        out.append("9");
        proof {
            reveal_strlit("9");
            assert("9"@ =~= seq![dec_digit(9)]);
        }
    }
}

fn push_decimal(n: u64, out: &mut String)
    ensures
        final(out)@ == old(out)@ + dec_rep(n as nat),
    decreases n,
{
    if n >= 10 {
        push_decimal(n / 10, out);
        push_digit(n % 10, out);
    } else {
        push_digit(n, out);
    }
}

/// The canonical decimal rendering of an integer feature value.
pub fn int_to_string(n: i64) -> (r: String)
    ensures
        r@ == int_rep(n as int),
{
    let mut out = String::new();
    if n < 0 {
        out.append("-");
        proof {
            reveal_strlit("-");
            assert("-"@ =~= seq!['-']);
        }
        let wide: i128 = n as i128;
        let m: u64 = (-wide) as u64;
        assert(m as nat == (-(n as int)) as nat);
        push_decimal(m, &mut out);
    } else {
        push_decimal(n as u64, &mut out);
    }
    out
}

// ----------------------------------------------------------------------------
// The context builder.
// ----------------------------------------------------------------------------

/// The canonical string rendering of a feature value, or `None` for the
/// value kinds the context drops.
pub open spec fn spec_render(v: FeatureValue) -> Option<Seq<char>> {
    match v {
        FeatureValue::Str(s) => Some(s@),
        FeatureValue::Bool(b) => Some(if b {
            "true"@
        } else {
            "false"@
        }),
        FeatureValue::Int(n) => Some(int_rep(n as int)),
        FeatureValue::Other => None,
    }
}

/// The context built from a list of feature flags: each flag with a
/// renderable value is stored under its uppercased name; later flags
/// overwrite earlier ones of the same uppercased name.
pub open spec fn spec_build_context(s: Seq<(String, FeatureValue)>) -> Map<Seq<char>, Seq<char>>
    decreases s.len(),
{
    if s.len() == 0 {
        Map::empty()
    } else {
        let m = spec_build_context(s.drop_last());
        match spec_render(s.last().1) {
            Some(v) => m.insert(upper_of(s.last().0@), v),
            None => m,
        }
    }
}

/// Builds the normalized lookup table from the raw feature flags, dropping
/// every flag whose value is not a string, boolean or number.
pub fn build_context(features: &Vec<(String, FeatureValue)>) -> (c: FeatureContext)
    ensures
        c@ == spec_build_context(features@),
{
    let mut c = FeatureContext::new();
    let n = features.len();
    let mut i: usize = 0;
    while i < n
        invariant
            i <= n,
            n == features@.len(),
            c@ == spec_build_context(features@.take(i as int)),
        decreases n - i,
    {
        let p = &features[i];
        let rendered: Option<String> = match &p.1 {
            FeatureValue::Str(s) => Some(s.clone()),
            FeatureValue::Bool(b) => {
                if *b {
                    Some(String::from_str("true"))
                } else {
                    Some(String::from_str("false"))
                }
            },
            FeatureValue::Int(v) => Some(int_to_string(*v)),
            FeatureValue::Other => None,
        };
        if let Some(value) = rendered {
            let key = to_upper(p.0.as_str());
            c.insert(key, value);
        }
        proof {
            assert(features@.take(i + 1).drop_last() =~= features@.take(i as int));
            assert(features@.take(i + 1).last() == features@[i as int]);
        }
        i = i + 1;
    }
    proof {
        assert(features@.take(n as int) =~= features@);
    }
    c
}

// ----------------------------------------------------------------------------
// The condition evaluator.
// ----------------------------------------------------------------------------

/// What a condition expression means against a context. The trimmed text
/// must begin with `$` and split on exactly one `==`; the left part,
/// trimmed and uppercased, names the flag, and the right part, trimmed,
/// unquoted and lowercased, is the expected value. A flag that is absent
/// and any text of another shape give false, never an error.
pub open spec fn spec_eval(cond: Seq<char>, ctx: Map<Seq<char>, Seq<char>>) -> bool {
    let t = spec_trim(cond);
    if t.len() == 0 || t[0] != '$' {
        false
    } else {
        let rest = t.skip(1);
        let i = first_eq(rest);
        if i < 0 {
            false
        } else if has_eq(rest.skip(i + 2)) {
            false
        } else {
            let name = upper_of(spec_trim(rest.take(i)));
            let expected = lower_of(spec_unquote(spec_trim(rest.skip(i + 2))));
            ctx.contains_key(name) && ctx[name] == expected
        }
    }
}

/// Evaluates a single condition expression against the context; text that
/// does not match the supported `$NAME == 'value'` shape evaluates to
/// false without signaling an error.
pub fn evaluate_condition(condition: &str, context: &FeatureContext) -> (r: bool)
    ensures
        r == spec_eval(condition@, context@),
{
    let cond = trim_str(condition);
    let n = cond.unicode_len();
    if n == 0 {
        return false;
    }
    if cond.get_char(0) != '$' {
        return false;
    }
    let rest = cond.substring_char(1, n);
    proof {
        assert(rest@ =~= spec_trim(condition@).skip(1));
    }
    match find_eq(rest) {
        None => false,
        Some(i) => {
            let m = rest.unicode_len();
            let right_all = rest.substring_char(i + 2, m);
            proof {
                assert(right_all@ =~= rest@.skip(i + 2));
            }
            match find_eq(right_all) {
                Some(_) => false,
                None => {
                    let left = rest.substring_char(0, i);
                    proof {
                        assert(left@ =~= rest@.take(i as int));
                    }
                    let name = to_upper(trim_str(left));
                    let expected = to_lower(unquote(trim_str(right_all)));
                    match context.get(&name) {
                        Some(actual) => actual.eq(&expected),
                        None => false,
                    }
                },
            }
        },
    }
}

// ----------------------------------------------------------------------------
// Shape laws of the evaluator.
// ----------------------------------------------------------------------------

/// A condition whose trimmed text does not begin with the `$` sigil
/// evaluates to false against every context.
pub proof fn lemma_eval_needs_sigil(cond: Seq<char>, ctx: Map<Seq<char>, Seq<char>>)
    requires
        spec_trim(cond).len() == 0 || spec_trim(cond)[0] != '$',
    ensures
        !spec_eval(cond, ctx),
{
}

/// A condition without exactly one `==` separator after the sigil (none at
/// all, or a second one further right) evaluates to false against every
/// context.
pub proof fn lemma_eval_needs_single_separator(cond: Seq<char>, ctx: Map<Seq<char>, Seq<char>>)
    requires
        spec_trim(cond).len() > 0,
        spec_trim(cond)[0] == '$',
        first_eq(spec_trim(cond).skip(1)) < 0 || has_eq(
            spec_trim(cond).skip(1).skip(first_eq(spec_trim(cond).skip(1)) + 2),
        ),
    ensures
        !spec_eval(cond, ctx),
{
}

/// A condition over a flag that is absent from the context evaluates to
/// false: absence is not an error, just an unsatisfied condition.
pub proof fn lemma_eval_missing_flag(cond: Seq<char>, ctx: Map<Seq<char>, Seq<char>>)
    requires
        spec_trim(cond).len() > 0,
        spec_trim(cond)[0] == '$',
        first_eq(spec_trim(cond).skip(1)) >= 0,
        !ctx.contains_key(
            upper_of(
                spec_trim(spec_trim(cond).skip(1).take(first_eq(spec_trim(cond).skip(1)))),
            ),
        ),
    ensures
        !spec_eval(cond, ctx),
{
}

/// Keys whose values are lists, objects or null are absent from the built
/// context; keys with string, boolean or numeric values are present under
/// their uppercased form.
pub proof fn lemma_context_membership(s: Seq<(String, FeatureValue)>, k: Seq<char>)
    ensures
        spec_build_context(s).contains_key(k) <==> exists|i: int|
            0 <= i < s.len() && upper_of(s[i].0@) == k && spec_render(s[i].1) is Some,
    decreases s.len(),
{
    if s.len() == 0 {
    } else {
        lemma_context_membership(s.drop_last(), k);
        let last = s.last();
        if spec_build_context(s).contains_key(k) {
            if spec_render(last.1) is Some && upper_of(last.0@) == k {
                assert(upper_of(s[s.len() - 1].0@) == k && spec_render(s[s.len() - 1].1) is Some);
            } else {
                assert(spec_build_context(s.drop_last()).contains_key(k));
                let i = choose|i: int|
                    0 <= i < s.drop_last().len() && upper_of(s.drop_last()[i].0@) == k
                        && spec_render(s.drop_last()[i].1) is Some;
                assert(upper_of(s[i].0@) == k && spec_render(s[i].1) is Some);
            }
        }
        if exists|i: int| 0 <= i < s.len() && upper_of(s[i].0@) == k && spec_render(s[i].1) is Some {
            let i = choose|i: int|
                0 <= i < s.len() && upper_of(s[i].0@) == k && spec_render(s[i].1) is Some;
            if i == s.len() - 1 {
                assert(spec_build_context(s).contains_key(k));
            } else {
                assert(upper_of(s.drop_last()[i].0@) == k && spec_render(
                    s.drop_last()[i].1,
                ) is Some);
                assert(spec_build_context(s.drop_last()).contains_key(k));
            }
        }
    }
}

} // verus!
