use vstd::prelude::*;

use vstd::string::StrSliceExecFns;

verus! {

/// Startup configuration: this actor's id, the total number of actors, and
/// the base port of the addressing convention (actor `i` listens at
/// `base_port_number + i`). All three are mandatory non-negative integers.
#[derive(Clone, Copy, Debug)]
pub struct Config {
    pub actor_id: usize,
    pub actor_count: usize,
    pub base_port_number: usize,
}

/// Why loading the configuration failed; any such failure is fatal at
/// startup.
#[derive(Debug)]
pub enum ConfigError {
    /// A mandatory option was not supplied; carries the option's name.
    MissingValueError(String),
    /// A supplied value did not parse as a non-negative integer that fits
    /// the machine; carries the offending text.
    ParseError(String),
}

/// An ASCII decimal digit.
pub open spec fn is_digit_char(c: char) -> bool {
    48 <= c as u32 <= 57
}

/// One or more ASCII decimal digits and nothing else.
pub open spec fn is_number(s: Seq<char>) -> bool {
    s.len() > 0 && forall|i: int| 0 <= i < s.len() ==> is_digit_char(#[trigger] s[i])
}

/// The numeric value of a decimal digit string.
pub open spec fn number_value(s: Seq<char>) -> int
    decreases s.len(),
{
    if s.len() == 0 {
        0
    } else {
        10 * number_value(s.drop_last()) + (s.last() as u32 - 48)
    }
}

/// The text parses as a machine-sized non-negative integer.
pub open spec fn parses_as_usize(s: Seq<char>) -> bool {
    is_number(s) && number_value(s) <= usize::MAX
}

proof fn lemma_number_value_nonneg(s: Seq<char>)
    requires
        forall|i: int| 0 <= i < s.len() ==> is_digit_char(#[trigger] s[i]),
    ensures
        number_value(s) >= 0,
    decreases s.len(),
{
    if s.len() > 0 {
        lemma_number_value_nonneg(s.drop_last());
    }
}

/// A prefix of a digit string never exceeds the whole string's value.
proof fn lemma_number_value_take(s: Seq<char>, j: int)
    requires
        forall|i: int| 0 <= i < s.len() ==> is_digit_char(#[trigger] s[i]),
        0 <= j <= s.len(),
    ensures
        number_value(s.take(j)) <= number_value(s),
    decreases s.len(),
{
    if j == s.len() {
        assert(s.take(j) =~= s);
    } else {
        assert(s.take(j) =~= s.drop_last().take(j));
        lemma_number_value_take(s.drop_last(), j);
        lemma_number_value_nonneg(s.drop_last());
    }
}

/// Parse a non-negative machine-sized integer from decimal text; any other
/// input — empty, a non-digit anywhere, or a value too large — is rejected
/// with the offending text.
pub fn parse_usize(s: &str) -> (r: Result<usize, ConfigError>)
    ensures
        r is Ok <==> parses_as_usize(s@),
        r matches Ok(v) ==> v == number_value(s@),
        r matches Err(e) ==> (e matches ConfigError::ParseError(t) && t@ == s@),
{
    let n = s.unicode_len();
    if n == 0 {
        return Err(ConfigError::ParseError(s.to_owned()));
    }
    let mut acc: usize = 0;
    let mut i: usize = 0;
    while i < n
        invariant
            i <= n,
            n as nat == s@.len(),
            forall|j: int| 0 <= j < i ==> is_digit_char(#[trigger] s@[j]),
            acc == number_value(s@.take(i as int)),
        decreases n - i,
    {
        let c = s.get_char(i);
        let u = c as u32;
        if u < 48 || u > 57 {
            proof {
                assert(!is_digit_char(s@[i as int]));
            }
            return Err(ConfigError::ParseError(s.to_owned()));
        }
        let d: usize = (u - 48) as usize;
        if acc > (usize::MAX - d) / 10 {
            proof {
                let full = s@;
                let tk1 = full.take(i as int + 1);
                assert(tk1.drop_last() =~= full.take(i as int));
                assert(tk1.last() == full[i as int]);
                assert(number_value(tk1) == 10 * acc + d);
                assert(10 * ((usize::MAX - d) / 10) <= usize::MAX - d);
                assert(10 * acc + d > usize::MAX);
                if is_number(full) {
                    lemma_number_value_take(full, i as int + 1);
                    assert(number_value(full) > usize::MAX);
                }
            }
            return Err(ConfigError::ParseError(s.to_owned()));
        }
        proof {
            assert(10 * ((usize::MAX - d) / 10) <= usize::MAX - d);
            let tk1 = s@.take(i as int + 1);
            assert(tk1.drop_last() =~= s@.take(i as int));
            assert(tk1.last() == s@[i as int]);
        }
        acc = acc * 10 + d;
        i = i + 1;
    }
    proof {
        assert(s@.take(n as int) =~= s@);
    }
    Ok(acc)
}

/// Assemble the configuration from the three option values as they came
/// from the command line (`None` where an option was missing): presence is
/// checked first, then each value must parse as a non-negative integer, in
/// the order actor id, actor count, base port.
pub fn configuration_from_values(
    actor: Option<String>,
    count: Option<String>,
    base: Option<String>,
) -> (r: Result<Config, ConfigError>)
    ensures
        r is Ok <==> (actor is Some && count is Some && base is Some && parses_as_usize(
            (actor->0)@,
        ) && parses_as_usize((count->0)@) && parses_as_usize((base->0)@)),
        r matches Ok(c) ==> c.actor_id == number_value((actor->0)@) && c.actor_count
            == number_value((count->0)@) && c.base_port_number == number_value((base->0)@),
        actor is None ==> (r matches Err(ConfigError::MissingValueError(m)) && m@ == "actor"@),
        (actor is Some && !parses_as_usize((actor->0)@)) ==> (r matches Err(
            ConfigError::ParseError(t),
        ) && t@ == (actor->0)@),
        (actor is Some && parses_as_usize((actor->0)@) && count is None) ==> (r matches Err(
            ConfigError::MissingValueError(m),
        ) && m@ == "actor_count"@),
        (actor is Some && parses_as_usize((actor->0)@) && count is Some && !parses_as_usize(
            (count->0)@,
        )) ==> (r matches Err(ConfigError::ParseError(t)) && t@ == (count->0)@),
        (actor is Some && parses_as_usize((actor->0)@) && count is Some && parses_as_usize(
            (count->0)@,
        ) && base is None) ==> (r matches Err(ConfigError::MissingValueError(m)) && m@
            == "base_port_number"@),
        (actor is Some && parses_as_usize((actor->0)@) && count is Some && parses_as_usize(
            (count->0)@,
        ) && base is Some && !parses_as_usize((base->0)@)) ==> (r matches Err(
            ConfigError::ParseError(t),
        ) && t@ == (base->0)@),
{
    let actor_id = match actor {
        None => {
            return Err(ConfigError::MissingValueError("actor".to_owned()));
        },
        Some(a) => {
            match parse_usize(a.as_str()) {
                Ok(v) => v,
                Err(e) => {
                    return Err(e);
                },
            }
        },
    };
    let actor_count = match count {
        None => {
            return Err(ConfigError::MissingValueError("actor_count".to_owned()));
        },
        Some(a) => {
            match parse_usize(a.as_str()) {
                Ok(v) => v,
                Err(e) => {
                    return Err(e);
                },
            }
        },
    };
    let base_port_number = match base {
        None => {
            return Err(ConfigError::MissingValueError("base_port_number".to_owned()));
        },
        Some(a) => {
            match parse_usize(a.as_str()) {
                Ok(v) => v,
                Err(e) => {
                    return Err(e);
                },
            }
        },
    };
    Ok(Config { actor_id, actor_count, base_port_number })
}

} // verus!
