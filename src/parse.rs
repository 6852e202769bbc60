//! The textual form of a policy: colon-separated rules such as `15m8`, each
//! an amount, a one-letter time unit and the number of copies to keep.
use vstd::prelude::*;

use crate::policy::RetentionPolicy;
use crate::rule::RetentionRule;

verus! {

broadcast use vstd::seq_lib::group_to_multiset_ensures;

/// Why a policy or rule text was refused.
#[derive(Clone, Copy, Debug, PartialEq, Eq, Hash, Structural)]
pub enum ParseError {
    /// None of the letters `s m h d w y` occurs in the rule.
    NoTimeUnit,
    /// The text before the unit is not a whole number.
    BadPeriod,
    /// The text after the unit is not a whole number.
    BadCopies,
    /// The period is zero.
    ZeroPeriod,
    /// The rule keeps no copies.
    ZeroCopies,
    /// The period does not fit in 64 bits of seconds.
    PeriodTooLong,
    /// The policy has no rule.
    NoRules,
}

/// The sentence that says what `e` found wrong.
pub open spec fn parse_message(e: ParseError) -> Seq<char> {
    match e {
        ParseError::NoTimeUnit => "no valid time unit found in rule; valid units are s|m|h|d|w|y"@,
        ParseError::BadPeriod => "could not parse duration between snapshots"@,
        ParseError::BadCopies => "could not parse number of copies to keep"@,
        ParseError::ZeroPeriod => "the duration between snapshots must be larger than zero"@,
        ParseError::ZeroCopies => "the number of copies to keep must be larger than zero"@,
        ParseError::PeriodTooLong => "the duration between snapshots is too long"@,
        ParseError::NoRules => "a retention policy needs at least one rule"@,
    }
}

impl ParseError {
    /// A sentence that says what was wrong.
    pub fn message(&self) -> (text: &'static str)
        ensures
            text@ == parse_message(*self),
    {
        match self {
            ParseError::NoTimeUnit => "no valid time unit found in rule; valid units are s|m|h|d|w|y",
            ParseError::BadPeriod => "could not parse duration between snapshots",
            ParseError::BadCopies => "could not parse number of copies to keep",
            ParseError::ZeroPeriod => "the duration between snapshots must be larger than zero",
            ParseError::ZeroCopies => "the number of copies to keep must be larger than zero",
            ParseError::PeriodTooLong => "the duration between snapshots is too long",
            ParseError::NoRules => "a retention policy needs at least one rule",
        }
    }
}

pub open spec fn is_digit(c: char) -> bool {
    '0' <= c && c <= '9'
}

/// The value of the decimal digits `s`.
pub open spec fn digits_value(s: Seq<char>) -> int
    decreases s.len(),
{
    if s.len() == 0 {
        0
    } else {
        10 * digits_value(s.drop_last()) + ((s.last() as u32) as int - 48)
    }
}

/// `s` without one leading `+`.
pub open spec fn unsigned_part(s: Seq<char>) -> Seq<char> {
    if s.len() > 0 && s[0] == '+' {
        s.drop_first()
    } else {
        s
    }
}

/// What reading `s` as an unsigned whole number gives: an optional `+`, then
/// one or more decimal digits, of a value that fits in `usize`.
pub open spec fn count_of(s: Seq<char>) -> Option<usize> {
    let d = unsigned_part(s);
    if d.len() > 0 && (forall|i: int| 0 <= i < d.len() ==> is_digit(#[trigger] d[i])) && digits_value(d)
        <= usize::MAX {
        Some(digits_value(d) as usize)
    } else {
        None
    }
}

/// The first position at or after `from` where `c` occurs in `s`, or the
/// length of `s` when there is none.
pub open spec fn first_at(s: Seq<char>, c: char, from: int) -> int
    decreases s.len() - from,
{
    if from >= s.len() {
        s.len() as int
    } else if s[from] == c {
        from
    } else {
        first_at(s, c, from + 1)
    }
}

/// The time units a rule may use, tried in this order: the letter and its
/// length in seconds.
pub open spec fn time_unit_spec(u: int) -> (char, u64) {
    if u == 0 {
        ('s', 1)
    } else if u == 1 {
        ('m', 60)
    } else if u == 2 {
        ('h', 3600)
    } else if u == 3 {
        ('d', 86400)
    } else if u == 4 {
        ('w', 604800)
    } else {
        ('y', 31536000)
    }
}

/// The rule that the text `s` describes, trying the time units from `u` on:
/// the first unit that occurs splits the text at its first occurrence into
/// the amount of units and the number of copies.
pub open spec fn rule_from_unit(s: Seq<char>, u: int) -> Result<RetentionRule, ParseError>
    decreases 6 - u,
{
    if u >= 6 {
        Err(ParseError::NoTimeUnit)
    } else {
        let (letter, seconds) = time_unit_spec(u);
        let at = first_at(s, letter, 0);
        if at >= s.len() {
            rule_from_unit(s, u + 1)
        } else {
            match count_of(s.take(at)) {
                None => Err(ParseError::BadPeriod),
                Some(amount) => match count_of(s.skip(at + 1)) {
                    None => Err(ParseError::BadCopies),
                    Some(copies) => {
                        if amount == 0 {
                            Err(ParseError::ZeroPeriod)
                        } else if copies == 0 {
                            Err(ParseError::ZeroCopies)
                        } else if amount * seconds > u64::MAX {
                            Err(ParseError::PeriodTooLong)
                        } else {
                            Ok(RetentionRule { snapshot_period: (amount * seconds) as u64, retained_copies: copies })
                        }
                    },
                },
            }
        }
    }
}

/// The rule that the text `s` describes.
pub open spec fn rule_of(s: Seq<char>) -> Result<RetentionRule, ParseError> {
    rule_from_unit(s, 0)
}

/// `s` cut at every `sep`; there is always at least one piece.
pub open spec fn split_on(s: Seq<char>, sep: char) -> Seq<Seq<char>>
    decreases s.len(),
{
    if s.len() == 0 {
        seq![Seq::empty()]
    } else {
        let earlier = split_on(s.drop_last(), sep);
        if s.last() == sep {
            earlier.push(Seq::empty())
        } else {
            earlier.update(earlier.len() - 1, earlier.last().push(s.last()))
        }
    }
}

/// The rules of `pieces` in order, or the error of the first piece that is
/// not a rule.
pub open spec fn rules_of(pieces: Seq<Seq<char>>) -> Result<Seq<RetentionRule>, ParseError>
    decreases pieces.len(),
{
    if pieces.len() == 0 {
        Ok(Seq::empty())
    } else {
        match rules_of(pieces.drop_last()) {
            Err(e) => Err(e),
            Ok(rules) => match rule_of(pieces.last()) {
                Err(e) => Err(e),
                Ok(rule) => Ok(rules.push(rule)),
            },
        }
    }
}

/// The rules that the policy text `s` lists, in the order written.
pub open spec fn policy_rules_of(s: Seq<char>) -> Result<Seq<RetentionRule>, ParseError> {
    match rules_of(split_on(s, ':')) {
        Err(e) => Err(e),
        Ok(rules) => if rules.len() == 0 {
            Err(ParseError::NoRules)
        } else {
            Ok(rules)
        },
    }
}

/// The rules are listed shortest period first.
pub open spec fn by_period(rules: Seq<RetentionRule>) -> bool {
    forall|i: int, j: int| 0 <= i < j < rules.len() ==> #[trigger] rules[i].snapshot_period <= #[trigger] rules[j].snapshot_period
}

/// Where the stable insertion of `rule` into `sorted` puts it: after every
/// rule, from position `j` on, whose period is no longer.
pub open spec fn insertion_point(sorted: Seq<RetentionRule>, rule: RetentionRule, j: int) -> int
    decreases sorted.len() - j,
{
    if j >= sorted.len() {
        sorted.len() as int
    } else if sorted[j].snapshot_period > rule.snapshot_period {
        j
    } else {
        insertion_point(sorted, rule, j + 1)
    }
}

/// `rules` sorted by period; rules of equal period keep their order.
pub open spec fn sort_by_period(rules: Seq<RetentionRule>) -> Seq<RetentionRule>
    decreases rules.len(),
{
    if rules.len() == 0 {
        rules
    } else {
        let sorted = sort_by_period(rules.drop_last());
        sorted.insert(insertion_point(sorted, rules.last(), 0), rules.last())
    }
}

/// The rules of the policy that the text `s` describes, shortest period first.
pub open spec fn policy_of(s: Seq<char>) -> Result<Seq<RetentionRule>, ParseError> {
    match policy_rules_of(s) {
        Err(e) => Err(e),
        Ok(rules) => Ok(sort_by_period(rules)),
    }
}

pub(crate) fn time_unit(u: usize) -> (unit: (char, u64))
    requires
        u < 6,
    ensures
        unit == time_unit_spec(u as int),
{
    if u == 0 {
        ('s', 1)
    } else if u == 1 {
        ('m', 60)
    } else if u == 2 {
        ('h', 3600)
    } else if u == 3 {
        ('d', 86400)
    } else if u == 4 {
        ('w', 604800)
    } else {
        ('y', 31536000)
    }
}

proof fn lemma_digits_grow(s: Seq<char>, i: int)
    requires
        0 <= i <= s.len(),
        forall|k: int| 0 <= k < s.len() ==> is_digit(#[trigger] s[k]),
    ensures
        digits_value(s) >= digits_value(s.take(i)) >= 0,
    decreases s.len() - i,
{
    if i < s.len() {
        lemma_digits_grow(s, i + 1);
        assert(s.take(i + 1).drop_last() =~= s.take(i));
        lemma_digits_nonneg(s.take(i));
    } else {
        assert(s.take(i) =~= s);
        lemma_digits_nonneg(s);
    }
}

proof fn lemma_digits_nonneg(s: Seq<char>)
    requires
        forall|k: int| 0 <= k < s.len() ==> is_digit(#[trigger] s[k]),
    ensures
        digits_value(s) >= 0,
    decreases s.len(),
{
    if s.len() > 0 {
        lemma_digits_nonneg(s.drop_last());
    }
}

/// Reads `s` as an unsigned whole number.
pub fn parse_count(s: &str) -> (count: Option<usize>)
    ensures
        count == count_of(s@),
{
    let n = s.unicode_len();
    let mut start: usize = 0;
    if n > 0 && s.get_char(0) == '+' {
        start = 1;
    }
    let ghost d = unsigned_part(s@);
    assert(d =~= s@.skip(start as int));
    if start == n {
        return None;
    }
    let mut value: usize = 0;
    let mut i = start;
    while i < n
        invariant
            n == s@.len(),
            start <= i <= n,
            d =~= s@.skip(start as int),
            d == unsigned_part(s@),
            forall|k: int| 0 <= k < i - start ==> is_digit(#[trigger] d[k]),
            value == digits_value(d.take(i - start)),
        decreases n - i,
    {
        let c = s.get_char(i);
        assert(d[i - start] == c);
        if !('0' <= c && c <= '9') {
            assert(0 <= i - start < d.len());
            assert(!is_digit(d[i - start]));
            assert(!(forall|k: int| 0 <= k < d.len() ==> is_digit(#[trigger] d[k])));
            assert(count_of(s@) is None);
            return None;
        }
        let digit = (c as u32 - 48) as usize;
        assert(d.take(i - start + 1).drop_last() =~= d.take(i - start));
        assert(d.take(i - start + 1).last() == c);
        assert(digits_value(d.take(i - start + 1)) == 10 * value + digit);
        match value.checked_mul(10) {
            None => {
                proof {
                    if forall|k: int| 0 <= k < d.len() ==> is_digit(#[trigger] d[k]) {
                        lemma_digits_grow(d, i - start + 1);
                        lemma_digits_nonneg(d.take(i - start));
                        assert(digits_value(d) > usize::MAX);
                    }
                    assert(count_of(s@) is None);
                }
                return None;
            },
            Some(tens) => match tens.checked_add(digit) {
                None => {
                    proof {
                        if forall|k: int| 0 <= k < d.len() ==> is_digit(#[trigger] d[k]) {
                            lemma_digits_grow(d, i - start + 1);
                        }
                        assert(count_of(s@) is None);
                    }
                    return None;
                },
                Some(next) => {
                    value = next;
                },
            },
        }
        i = i + 1;
    }
    assert(d.take(n - start) =~= d);
    Some(value)
}

/// The first position of `c` in `s`, or the length of `s` when it does not occur.
pub(crate) fn find_char(s: &str, c: char) -> (at: usize)
    ensures
        at == first_at(s@, c, 0),
{
    let n = s.unicode_len();
    let mut i: usize = 0;
    while i < n
        invariant
            n == s@.len(),
            i <= n,
            first_at(s@, c, 0) == first_at(s@, c, i as int),
        decreases n - i,
    {
        if s.get_char(i) == c {
            return i;
        }
        i = i + 1;
    }
    n
}

/// Inserts `rule` after every rule of `sorted` whose period is no longer.
fn insert_by_period(sorted: &mut Vec<RetentionRule>, rule: RetentionRule)
    requires
        by_period(old(sorted)@),
    ensures
        by_period(final(sorted)@),
        final(sorted)@.to_multiset() == old(sorted)@.to_multiset().insert(rule),
        final(sorted)@ == old(sorted)@.insert(insertion_point(old(sorted)@, rule, 0), rule),
{
    let mut pos: usize = 0;
    while pos < sorted.len() && sorted[pos].snapshot_period <= rule.snapshot_period
        invariant
            pos <= sorted@.len(),
            insertion_point(sorted@, rule, 0) == insertion_point(sorted@, rule, pos as int),
            by_period(sorted@),
            forall|j: int| 0 <= j < pos ==> #[trigger] sorted@[j].snapshot_period <= rule.snapshot_period,
        decreases sorted@.len() - pos,
    {
        pos = pos + 1;
    }
    let ghost before = sorted@;
    proof {
        before.insert_ensures(pos as int, rule);
        vstd::seq_lib::to_multiset_insert(before, pos as int, rule);
    }
    sorted.insert(pos, rule);
    proof {
        let after = sorted@;
        assert forall|i: int, j: int| 0 <= i < j < after.len() implies #[trigger] after[i].snapshot_period
            <= #[trigger] after[j].snapshot_period by {
            if j < pos {
            } else if j == pos {
            } else if i < pos {
                assert(after[j] == before[j - 1]);
                assert(before[pos as int].snapshot_period > rule.snapshot_period);
                if j - 1 > pos {
                    assert(before[pos as int].snapshot_period <= before[j - 1].snapshot_period);
                }
            } else if i == pos {
                assert(after[j] == before[j - 1]);
                assert(before[pos as int].snapshot_period > rule.snapshot_period);
                if j - 1 > pos {
                    assert(before[pos as int].snapshot_period <= before[j - 1].snapshot_period);
                }
            } else {
                assert(after[i] == before[i - 1]);
                assert(after[j] == before[j - 1]);
            }
        }
    }
}

impl RetentionRule {
    /// Reads one rule such as `10m2`: ten minutes between kept snapshots,
    /// two copies kept.
    pub fn from_str(rule: &str) -> (parsed: Result<RetentionRule, ParseError>)
        ensures
            parsed == rule_of(rule@),
            parsed matches Ok(r) ==> r.usable(),
    {
        let n = rule.unicode_len();
        let mut u: usize = 0;
        while u < 6
            invariant
                n == rule@.len(),
                u <= 6,
                rule_of(rule@) == rule_from_unit(rule@, u as int),
            decreases 6 - u,
        {
            let (letter, seconds) = time_unit(u);
            let at = find_char(rule, letter);
            if at < n {
                let amount = parse_count(rule.substring_char(0, at));
                let copies = parse_count(rule.substring_char(at + 1, n));
                assert(rule@.subrange(0, at as int) =~= rule@.take(at as int));
                assert(rule@.subrange(at + 1, n as int) =~= rule@.skip(at + 1));
                match amount {
                    None => {
                        return Err(ParseError::BadPeriod);
                    },
                    Some(amount) => match copies {
                        None => {
                            return Err(ParseError::BadCopies);
                        },
                        Some(copies) => {
                            if amount == 0 {
                                return Err(ParseError::ZeroPeriod);
                            }
                            if copies == 0 {
                                return Err(ParseError::ZeroCopies);
                            }
                            assert(1 <= seconds <= 31536000);
                            assert(amount as u128 * seconds as u128 <= usize::MAX as u128 * 31536000) by (nonlinear_arith)
                                requires
                                    seconds <= 31536000,
                            ;
                            assert(amount as u128 * seconds as u128 >= 1) by (nonlinear_arith)
                                requires
                                    seconds >= 1,
                                    amount >= 1,
                            ;
                            let period = amount as u128 * seconds as u128;
                            if period > u64::MAX as u128 {
                                return Err(ParseError::PeriodTooLong);
                            }
                            return Ok(RetentionRule { snapshot_period: period as u64, retained_copies: copies });
                        },
                    },
                }
            }
            u = u + 1;
        }
        Err(ParseError::NoTimeUnit)
    }
}

proof fn lemma_split_extends(s: Seq<char>, sep: char, m: int, j: int)
    requires
        0 <= m <= j <= s.len(),
    ensures
        split_on(s.take(j), sep).len() >= split_on(s.take(m), sep).len(),
        forall|q: int|
            0 <= q < split_on(s.take(m), sep).len() - 1 ==> #[trigger] split_on(s.take(j), sep)[q] == split_on(
                s.take(m),
                sep,
            )[q],
    decreases j - m,
{
    if j > m {
        lemma_split_extends(s, sep, m, j - 1);
        assert(s.take(j).drop_last() =~= s.take(j - 1));
    }
}

proof fn lemma_rules_of_prefix_err(pieces: Seq<Seq<char>>, q: int)
    requires
        0 <= q <= pieces.len(),
        rules_of(pieces.take(q)) is Err,
    ensures
        rules_of(pieces) == rules_of(pieces.take(q)),
    decreases pieces.len(),
{
    if pieces.len() > q {
        assert(pieces.drop_last().take(q) =~= pieces.take(q));
        lemma_rules_of_prefix_err(pieces.drop_last(), q);
    } else {
        assert(pieces.take(q) =~= pieces);
    }
}

proof fn lemma_rules_of_periods(pieces: Seq<Seq<char>>, rules: Seq<RetentionRule>)
    requires
        rules_of(pieces) == Ok::<Seq<RetentionRule>, ParseError>(rules),
    ensures
        forall|r: int| 0 <= r < rules.len() ==> #[trigger] rules[r].usable(),
    decreases pieces.len(),
{
    if pieces.len() > 0 {
        let earlier = rules_of(pieces.drop_last());
        if let Ok(e) = earlier {
            lemma_rules_of_periods(pieces.drop_last(), e);
            lemma_rule_period(pieces.last());
        }
    }
}

proof fn lemma_rule_period_from(s: Seq<char>, u: int)
    requires
        0 <= u <= 6,
    ensures
        rule_from_unit(s, u) matches Ok(r) ==> r.usable(),
    decreases 6 - u,
{
    if u < 6 {
        lemma_rule_period_from(s, u + 1);
        assert(forall|a: int, b: int| a >= 1 && b >= 1 ==> #[trigger] (a * b) >= 1) by (nonlinear_arith);
    }
}

proof fn lemma_rule_period(s: Seq<char>)
    ensures
        rule_of(s) matches Ok(r) ==> r.usable(),
{
    lemma_rule_period_from(s, 0);
}

impl RetentionPolicy {
    /// Reads a policy such as `15m8:1h48:1d14`: rules separated by colons.
    /// The rules come out shortest period first; the first rule that cannot
    /// be read decides the error.
    pub fn from_str(text: &str) -> (parsed: Result<RetentionPolicy, ParseError>)
        ensures
            parsed is Ok <==> policy_rules_of(text@) is Ok,
            parsed matches Err(e) ==> policy_rules_of(text@) == Err::<Seq<RetentionRule>, ParseError>(e),
            parsed matches Ok(p) ==> policy_of(text@) == Ok::<Seq<RetentionRule>, ParseError>(p.rules()),
            parsed matches Ok(p) ==> {
                &&& policy_rules_of(text@) matches Ok(rules)
                &&& p.rules().to_multiset() == rules.to_multiset()
                &&& by_period(p.rules())
                &&& p.wf()
            },
    {
        let n = text.unicode_len();
        let mut listed: Vec<RetentionRule> = Vec::new();
        let ghost mut finished: Seq<Seq<char>> = Seq::empty();
        let mut start: usize = 0;
        let mut i: usize = 0;
        assert(text@.take(0) =~= Seq::<char>::empty());
        assert(text@.subrange(0, 0) =~= Seq::<char>::empty());
        assert(split_on(text@.take(0), ':') =~= finished.push(text@.subrange(0, 0)));
        while i < n
            invariant
                n == text@.len(),
                start <= i <= n,
                split_on(text@.take(i as int), ':') == finished.push(text@.subrange(start as int, i as int)),
                rules_of(finished) == Ok::<Seq<RetentionRule>, ParseError>(listed@),
            decreases n - i,
        {
            let c = text.get_char(i);
            assert(text@.take(i + 1).drop_last() =~= text@.take(i as int));
            assert(text@.take(i + 1).last() == c);
            if c == ':' {
                let piece = text.substring_char(start, i);
                match RetentionRule::from_str(piece) {
                    Err(e) => {
                        proof {
                            let done = finished.push(piece@);
                            assert(done.drop_last() =~= finished);
                            assert(split_on(text@.take(i + 1), ':') == done.push(Seq::<char>::empty()));
                            lemma_split_extends(text@, ':', i + 1, n as int);
                            assert(text@.take(n as int) =~= text@);
                            let all_pieces = split_on(text@, ':');
                            assert(all_pieces.take(done.len() as int) =~= done);
                            lemma_rules_of_prefix_err(all_pieces, done.len() as int);
                        }
                        return Err(e);
                    },
                    Ok(rule) => {
                        proof {
                            assert(finished.push(piece@).drop_last() =~= finished);
                            finished = finished.push(piece@);
                        }
                        listed.push(rule);
                    },
                }
                start = i + 1;
                assert(text@.subrange(start as int, start as int) =~= Seq::<char>::empty());
            } else {
                assert(text@.subrange(start as int, i as int).push(c) =~= text@.subrange(start as int, i + 1));
                assert(finished.push(text@.subrange(start as int, i as int)).update(
                    finished.len() as int,
                    text@.subrange(start as int, i as int).push(c),
                ) =~= finished.push(text@.subrange(start as int, i + 1)));
            }
            i = i + 1;
        }
        assert(text@.take(n as int) =~= text@);
        let piece = text.substring_char(start, n);
        let last = RetentionRule::from_str(piece);
        assert(finished.push(piece@).drop_last() =~= finished);
        let rule = match last {
            Err(e) => {
                return Err(e);
            },
            Ok(rule) => rule,
        };
        listed.push(rule);
        let ghost all = listed@;
        proof {
            assert(split_on(text@, ':') == finished.push(piece@));
            assert(rules_of(finished.push(piece@)) == Ok::<Seq<RetentionRule>, ParseError>(all));
            assert(policy_rules_of(text@) == Ok::<Seq<RetentionRule>, ParseError>(all));
            lemma_rules_of_periods(split_on(text@, ':'), all);
        }
        let mut sorted: Vec<RetentionRule> = Vec::new();
        let mut k: usize = 0;
        assert(all.take(0) =~= Seq::<RetentionRule>::empty());
        while k < listed.len()
            invariant
                k <= listed@.len(),
                listed@ == all,
                by_period(sorted@),
                sorted@.to_multiset() == all.take(k as int).to_multiset(),
                sorted@ == sort_by_period(all.take(k as int)),
            decreases listed@.len() - k,
        {
            assert(all.take(k + 1) =~= all.take(k as int).push(all[k as int]));
            assert(all.take(k + 1).drop_last() =~= all.take(k as int));
            insert_by_period(&mut sorted, listed[k]);
            k = k + 1;
        }
        assert(all.take(all.len() as int) =~= all);
        let policy = RetentionPolicy(sorted);
        proof {
            assert forall|r: int| 0 <= r < policy.rules().len() implies #[trigger] policy.rules()[r].usable() by {
                assert(policy.rules().to_multiset().count(policy.rules()[r]) > 0);
                assert(all.contains(policy.rules()[r]));
            }
            assert(policy.rules().to_multiset().len() == policy.rules().len());
            assert(all.to_multiset().len() == all.len());
            assert(policy.rules().len() == all.len());
            assert(policy.wf());
        }
        Ok(policy)
    }
}

} // verus!
