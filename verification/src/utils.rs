//! The agents' configuration, and the lines that the console takes.
//!
//! The configuration is YAML text: a sequence of mappings, one for each
//! agent, with the agent's `name`, its `port` and its `successrate`. Reading
//! YAML is left to `serde_yaml`; what its results mean for an agent is
//! decided here.

use vstd::prelude::*;
use vstd::string::StrSliceExecFns;
use vstd::string::StringSliceAdditionalSpecFns;
use vstd::string::StringExecFns;
use crate::csv::{number_below, parse_below};

verus! {

/// A value of YAML, as `serde_yaml` holds it.
#[verifier::external_type_specification]
#[verifier::external_body]
pub struct ExYamlValue(serde_yaml::Value);

/// Why `serde_yaml` could not read a text.
#[verifier::external_type_specification]
#[verifier::external_body]
pub struct ExYamlError(serde_yaml::Error);

/// The values that `serde_yaml::from_str` reads from a text as a sequence;
/// nothing where it fails, because the text is no YAML or holds no
/// sequence.
pub uninterp spec fn yaml_sequence(text: Seq<char>) -> Option<Seq<serde_yaml::Value>>;

/// The whole numbers from 0 on that a value of `serde_yaml` holds under
/// keys that are strings. A value that is no mapping holds none.
pub uninterp spec fn yaml_numbers(value: serde_yaml::Value) -> Map<Seq<char>, u64>;

/// The strings that a value of `serde_yaml` holds under keys that are
/// strings. A value that is no mapping holds none.
pub uninterp spec fn yaml_strings(value: serde_yaml::Value) -> Map<Seq<char>, Seq<char>>;

/// The greatest column, counted in bytes from the last line feed, at which
/// a configuration may open a block.
pub const MAX_BLOCK_COLUMN: usize = 64;

/// No byte from `from` up to `to` is a line feed.
pub open spec fn no_line_feed(bytes: Seq<u8>, from: int, to: int) -> bool {
    forall|k: int| from <= k < to ==> bytes[k] != 0x0a
}

/// Whether a byte is a blank: a space or a tab.
pub open spec fn is_gap(b: u8) -> bool {
    b == 0x20 || b == 0x09
}

/// Whether a byte ends a line: a line feed or a carriage return.
pub open spec fn is_break(b: u8) -> bool {
    b == 0x0a || b == 0x0d
}

/// Whether the byte at `i` is an indicator: `-`, `?` or `:` with a blank, a
/// line end, a zero byte or the end of the text behind it.
pub open spec fn is_indicator(bytes: Seq<u8>, i: int) -> bool {
    &&& 0 <= i < bytes.len()
    &&& bytes[i] == 0x2d || bytes[i] == 0x3f || bytes[i] == 0x3a
    &&& i + 1 < bytes.len() ==> is_gap(bytes[i + 1]) || is_break(bytes[i + 1]) || bytes[i + 1] == 0
}

/// The bytes from `from` up to `to` are blanks and indicators only.
pub open spec fn is_opening(bytes: Seq<u8>, from: int, to: int) -> bool {
    forall|k: int| from <= k < to ==> is_gap(bytes[k]) || is_indicator(bytes, k)
}

/// No block opens beyond column `limit`. A block can open only where a line
/// has held nothing but blanks and indicators so far: at an indicator, or at
/// the first byte of anything else. A line in this sense starts after a
/// line feed or a carriage return; columns count from the last line feed.
pub open spec fn blocks_fit(bytes: Seq<u8>, limit: nat) -> bool {
    forall|column_from: int, line_from: int, i: int|
        0 <= column_from <= line_from <= i < bytes.len() && #[trigger] no_line_feed(
            bytes,
            column_from,
            i,
        ) && (line_from == 0 || is_break(bytes[line_from - 1])) && #[trigger] is_opening(
            bytes,
            line_from,
            i,
        ) && !is_gap(bytes[i]) && !is_break(bytes[i]) ==> i - column_from <= limit
}

/// Whether a text can be read as a configuration: no block of it opens
/// beyond column `MAX_BLOCK_COLUMN`.
pub open spec fn is_readable(text: &str) -> bool {
    blocks_fit(text.spec_bytes(), MAX_BLOCK_COLUMN as nat)
}

/// Whether no block opens beyond column `limit`.
pub fn blocks_within(bytes: &[u8], limit: usize) -> (fit: bool)
    ensures
        fit == blocks_fit(bytes@, limit as nat),
{
    let len: usize = bytes.len();
    let mut i: usize = 0;
    let mut column: usize = 0;
    let mut opening: bool = true;
    let ghost mut column_start: int = 0;
    let ghost mut line_start: int = 0;
    while i < len
        invariant
            i <= len,
            len == bytes@.len(),
            0 <= column_start <= line_start <= i,
            column == i - column_start,
            column_start == 0 || bytes@[column_start - 1] == 0x0a,
            no_line_feed(bytes@, column_start, i as int),
            line_start == 0 || is_break(bytes@[line_start - 1]),
            forall|k: int| line_start <= k < i ==> !is_break(bytes@[k]),
            opening == is_opening(bytes@, line_start, i as int),
            forall|column_from: int, line_from: int, j: int|
                0 <= column_from <= line_from <= j < i && #[trigger] no_line_feed(
                    bytes@,
                    column_from,
                    j,
                ) && (line_from == 0 || is_break(bytes@[line_from - 1])) && #[trigger] is_opening(
                    bytes@,
                    line_from,
                    j,
                ) && !is_gap(bytes@[j]) && !is_break(bytes@[j]) ==> j - column_from <= limit,
        decreases len - i,
    {
        let b: u8 = bytes[i];
        let gap: bool = b == 0x20 || b == 0x09;
        let ends: bool = b == 0x0a || b == 0x0d;
        if opening && !gap && !ends && column > limit {
            return false;
        }
        proof {
            assert forall|column_from: int, line_from: int, j: int|
                0 <= column_from <= line_from <= j < i + 1 && #[trigger] no_line_feed(
                    bytes@,
                    column_from,
                    j,
                ) && (line_from == 0 || is_break(bytes@[line_from - 1])) && #[trigger] is_opening(
                    bytes@,
                    line_from,
                    j,
                ) && !is_gap(bytes@[j]) && !is_break(bytes@[j]) implies j - column_from
                <= limit by {
                if j == i {
                    if column_from < column_start {
                        assert(bytes@[column_start - 1] != 0x0a);
                    }
                    if line_from < line_start {
                        assert(is_gap(bytes@[line_start - 1]) || is_indicator(
                            bytes@,
                            line_start - 1,
                        ));
                    }
                    if line_from > line_start {
                        assert(!is_break(bytes@[line_from - 1]));
                    }
                    assert(line_from == line_start);
                }
            }
        }
        if b == 0x0a {
            column = 0;
            opening = true;
            proof {
                column_start = i + 1;
                line_start = i + 1;
            }
        } else if b == 0x0d {
            column = column + 1;
            opening = true;
            proof {
                line_start = i + 1;
            }
        } else {
            let ghost before = opening;
            if opening && !gap {
                let marks: bool = b == 0x2d || b == 0x3f || b == 0x3a;
                let next_ends: bool = i + 1 >= len || bytes[i + 1] == 0x20 || bytes[i + 1] == 0x09
                    || bytes[i + 1] == 0x0a || bytes[i + 1] == 0x0d || bytes[i + 1] == 0;
                opening = marks && next_ends;
                assert(opening == is_indicator(bytes@, i as int));
            }
            proof {
                let here = is_gap(bytes@[i as int]) || is_indicator(bytes@, i as int);
                if before && here {
                    assert(is_opening(bytes@, line_start, i + 1));
                }
                if is_opening(bytes@, line_start, i + 1) {
                    assert(here);
                    assert(is_opening(bytes@, line_start, i as int));
                }
            }
            column = column + 1;
        }
        i = i + 1;
    }
    true
}

/// Calls `serde_yaml::from_str` for a sequence of values. The result is a
/// function of the text alone, so it has a name; nothing else is claimed of
/// it.
///
/// The text must open no block beyond column `MAX_BLOCK_COLUMN`. The YAML
/// reader behind `serde_yaml` calls itself once for each collection that
/// lies inside another, and has no limit of its own for collections written
/// as blocks: a text that nests them deep enough exhausts the stack. The
/// reader opens a block only at a `-`, `?` or `:` that a blank or a line end
/// follows, or at the start of a key, and only where its line has held
/// nothing but blanks and such indicators so far; it takes the block for
/// nested only if it stands at a greater column than the block around it,
/// and counts columns from the last line feed. So the blocks of a text that
/// meets the bound nest no deeper than the bound, and the sequences that a
/// mapping holds at its own column double that at most. Collections
/// written in brackets are limited by the reader itself, to 255 levels.
#[verifier::external_body]
fn parse_sequence(text: &str) -> (parsed: Result<Vec<serde_yaml::Value>, serde_yaml::Error>)
    requires
        is_readable(text),
    ensures
        parsed is Ok <==> yaml_sequence(text@) is Some,
        parsed matches Ok(values) ==> yaml_sequence(text@) == Some(values@),
{
    serde_yaml::from_str::<serde_yaml::Sequence>(text)
}

/// Indexes a value of `serde_yaml` by a string and hands out what is found
/// as a number, by `serde_yaml::Value::as_u64`. Indexing never fails: it
/// finds the null value in a value that is no mapping or has no such key,
/// and `as_u64` gives a number only for a whole number from 0 on. The claim
/// is that this reads the numbers that the value holds, as they are named
/// above.
#[verifier::external_body]
fn number_at(value: &serde_yaml::Value, key: &str) -> (number: Option<u64>)
    ensures
        number == (if yaml_numbers(*value).contains_key(key@) {
            Some(yaml_numbers(*value)[key@])
        } else {
            None
        }),
{
    value[key].as_u64()
}

/// Indexes a value of `serde_yaml` by a string and hands out a copy of
/// what is found as a string, by `serde_yaml::Value::as_str`, which gives a
/// string only for a value that is one. The claim is that this reads the
/// strings that the value holds, as they are named above.
#[verifier::external_body]
fn string_at(value: &serde_yaml::Value, key: &str) -> (text: Option<String>)
    ensures
        text is Some <==> yaml_strings(*value).contains_key(key@),
        text matches Some(s) ==> s@ == yaml_strings(*value)[key@],
{
    value[key].as_str().map(|s| s.to_string())
}

/// What is wrong with a configuration.
#[derive(Clone, Copy, Debug, PartialEq, Eq, Structural)]
pub enum ConfigError {
    /// The text opens a block beyond column `MAX_BLOCK_COLUMN`, is no
    /// YAML, or holds no sequence.
    Syntax,
    /// An agent has no port, or one that is no whole number from 0 to
    /// 65535.
    Port,
    /// An agent has no name, or one that is no string.
    Name,
}

/// The port of an agent: what its mapping holds under `port`, where that is
/// a whole number that fits a port.
pub open spec fn port_of(agent: serde_yaml::Value) -> Option<u16> {
    if yaml_numbers(agent).contains_key("port"@) && yaml_numbers(agent)["port"@] <= u16::MAX {
        Some(yaml_numbers(agent)["port"@] as u16)
    } else {
        None
    }
}

/// The name of an agent: what its mapping holds under `name`, where that is
/// a string.
pub open spec fn name_of(agent: serde_yaml::Value) -> Option<Seq<char>> {
    if yaml_strings(agent).contains_key("name"@) {
        Some(yaml_strings(agent)["name"@])
    } else {
        None
    }
}

/// The agents that the text of a configuration names; nothing where the
/// text cannot be read or holds no sequence.
pub open spec fn agents_of(text: &str) -> Option<Seq<serde_yaml::Value>> {
    if is_readable(text) {
        yaml_sequence(text@)
    } else {
        None
    }
}

/// Reads the agents from the text of a configuration. A text that opens a
/// block beyond column `MAX_BLOCK_COLUMN` is not handed to the YAML reader.
pub fn get_agents(text: &str) -> (agents: Result<Vec<serde_yaml::Value>, ConfigError>)
    ensures
        agents is Ok <==> agents_of(text) is Some,
        agents matches Ok(values) ==> agents_of(text) == Some(values@),
        agents matches Err(e) ==> e == ConfigError::Syntax,
{
    if !blocks_within(text.as_bytes(), MAX_BLOCK_COLUMN) {
        return Err(ConfigError::Syntax);
    }
    match parse_sequence(text) {
        Ok(values) => Ok(values),
        Err(_) => Err(ConfigError::Syntax),
    }
}

/// The port of an agent.
pub fn agent_get_port(agent: &serde_yaml::Value) -> (port: Result<u16, ConfigError>)
    ensures
        port == (match port_of(*agent) {
            Some(p) => Ok::<u16, ConfigError>(p),
            None => Err(ConfigError::Port),
        }),
{
    match number_at(agent, "port") {
        Some(number) => {
            if number <= 0xffff {
                Ok(number as u16)
            } else {
                Err(ConfigError::Port)
            }
        },
        None => Err(ConfigError::Port),
    }
}

/// The name of an agent.
pub fn agent_get_name(agent: &serde_yaml::Value) -> (name: Result<String, ConfigError>)
    ensures
        name is Ok <==> name_of(*agent) is Some,
        name matches Ok(s) ==> name_of(*agent) == Some(s@),
        name matches Err(e) ==> e == ConfigError::Name,
{
    match string_at(agent, "name") {
        Some(name) => Ok(name),
        None => Err(ConfigError::Name),
    }
}

/// Every agent of the list has a port.
pub open spec fn all_have_ports(agents: Seq<serde_yaml::Value>) -> bool {
    forall|i: int| 0 <= i < agents.len() ==> port_of(#[trigger] agents[i]) is Some
}

/// The ports of the agents of a list, in its order.
pub fn ports_of_agents(agents: &[serde_yaml::Value]) -> (ports: Result<Vec<u16>, ConfigError>)
    ensures
        ports is Ok <==> all_have_ports(agents@),
        ports matches Ok(list) ==> list@.len() == agents@.len() && forall|i: int|
            0 <= i < list@.len() ==> port_of(agents@[i]) == Some(#[trigger] list@[i]),
        ports matches Err(e) ==> e == ConfigError::Port,
{
    let mut ports: Vec<u16> = Vec::new();
    let mut i: usize = 0;
    while i < agents.len()
        invariant
            i <= agents@.len(),
            ports@.len() == i,
            forall|k: int| 0 <= k < i ==> port_of(agents@[k]) == Some(#[trigger] ports@[k]),
        decreases agents@.len() - i,
    {
        match agent_get_port(&agents[i]) {
            Ok(port) => {
                ports.push(port);
            },
            Err(e) => {
                assert(port_of(agents@[i as int]) is None);
                return Err(e);
            },
        }
        i = i + 1;
    }
    proof {
        assert forall|k: int| 0 <= k < agents@.len() implies port_of(
            #[trigger] agents@[k],
        ) is Some by {
            assert(port_of(agents@[k]) == Some(ports@[k]));
        }
    }
    Ok(ports)
}

/// The ports of the agents that the text of a configuration names, in its
/// order.
pub fn get_agents_ports(text: &str) -> (ports: Result<Vec<u16>, ConfigError>)
    ensures
        ports is Ok <==> (agents_of(text) matches Some(agents) && all_have_ports(agents)),
        ports matches Ok(list) ==> list@.len() == agents_of(text)->0.len() && forall|i: int|
            0 <= i < list@.len() ==> port_of(agents_of(text)->0[i]) == Some(#[trigger] list@[i]),
        ports matches Err(e) ==> e == (if agents_of(text) is None {
            ConfigError::Syntax
        } else {
            ConfigError::Port
        }),
{
    match get_agents(text) {
        Ok(agents) => ports_of_agents(agents.as_slice()),
        Err(e) => Err(e),
    }
}

/// Whether a character is white space.
pub open spec fn is_space(c: char) -> bool {
    let code = c as u32;
    ||| 0x09 <= code <= 0x0d
    ||| code == 0x20
    ||| code == 0x85
    ||| code == 0xa0
    ||| code == 0x1680
    ||| 0x2000 <= code <= 0x200a
    ||| code == 0x2028
    ||| code == 0x2029
    ||| code == 0x202f
    ||| code == 0x205f
    ||| code == 0x3000
}

/// A text without the white space that it starts with.
pub open spec fn trim_start(s: Seq<char>) -> Seq<char>
    decreases s.len(),
{
    if s.len() > 0 && is_space(s[0]) {
        trim_start(s.skip(1))
    } else {
        s
    }
}

/// A text without the white space that it ends with.
pub open spec fn trim_end(s: Seq<char>) -> Seq<char>
    decreases s.len(),
{
    if s.len() > 0 && is_space(s.last()) {
        trim_end(s.drop_last())
    } else {
        s
    }
}

/// Whether every character is one of the first 128.
pub open spec fn is_plain(s: Seq<char>) -> bool {
    forall|i: int| 0 <= i < s.len() ==> ((#[trigger] s[i]) as u32) < 128
}

/// Characters as bytes, the low eight bits of each.
pub open spec fn low_bytes(s: Seq<char>) -> Seq<u8> {
    Seq::new(s.len(), |i: int| s[i] as u8)
}

/// Whom a line of the console kills among `count`: the line, without the
/// white space around it, must spell a number below `count` in decimal
/// digits, after a plus sign or without one.
pub open spec fn kill_target(line: Seq<char>, count: usize) -> Option<usize> {
    let word = trim_end(trim_start(line));
    if is_plain(word) {
        match number_below(low_bytes(word), count as nat) {
            Some(n) => Some(n as usize),
            None => None,
        }
    } else {
        None
    }
}

/// Whether a character is white space.
pub fn is_whitespace(c: char) -> (space: bool)
    ensures
        space == is_space(c),
{
    let code: u32 = c as u32;
    (0x09 <= code && code <= 0x0d) || code == 0x20 || code == 0x85 || code == 0xa0 || code
        == 0x1680 || (0x2000 <= code && code <= 0x200a) || code == 0x2028 || code == 0x2029
        || code == 0x202f || code == 0x205f || code == 0x3000
}

/// Where a line starts, its white space left aside.
pub fn trimmed_start(line: &str) -> (lo: usize)
    ensures
        lo <= line@.len(),
        trim_start(line@) == line@.skip(lo as int),
{
    let len: usize = line.unicode_len();
    let mut lo: usize = 0;
    proof {
        assert(line@.skip(0) =~= line@);
    }
    while lo < len && is_whitespace(line.get_char(lo))
        invariant
            lo <= len,
            len == line@.len(),
            trim_start(line@) == trim_start(line@.skip(lo as int)),
        decreases len - lo,
    {
        proof {
            let rest = line@.skip(lo as int);
            assert(rest[0] == line@[lo as int]);
            assert(rest.skip(1) =~= line@.skip(lo + 1));
        }
        lo = lo + 1;
    }
    proof {
        if lo < len {
            assert(line@.skip(lo as int)[0] == line@[lo as int]);
        }
    }
    lo
}

/// Where a line ends, the white space at its end left aside; the line is
/// taken from `lo` on.
pub fn trimmed_end(line: &str, lo: usize) -> (hi: usize)
    requires
        lo <= line@.len(),
    ensures
        lo <= hi <= line@.len(),
        trim_end(line@.skip(lo as int)) == line@.subrange(lo as int, hi as int),
{
    let len: usize = line.unicode_len();
    let ghost left = line@.skip(lo as int);
    let mut hi: usize = len;
    proof {
        assert(left.take(len - lo) =~= left);
    }
    while hi > lo && is_whitespace(line.get_char(hi - 1))
        invariant
            lo <= hi <= len,
            len == line@.len(),
            left == line@.skip(lo as int),
            trim_end(left) == trim_end(left.take(hi - lo)),
        decreases hi,
    {
        proof {
            let rest = left.take(hi - lo);
            assert(rest.last() == line@[hi - 1]);
            assert(rest.drop_last() =~= left.take(hi - lo - 1));
        }
        hi = hi - 1;
    }
    proof {
        let word = left.take(hi - lo);
        if hi > lo {
            assert(word.last() == line@[hi - 1]);
        }
        assert(word =~= line@.subrange(lo as int, hi as int));
    }
    hi
}

/// The characters of a line from `lo` up to `hi` as bytes, if each is one
/// of the first 128.
pub fn plain_bytes(line: &str, lo: usize, hi: usize) -> (bytes: Option<Vec<u8>>)
    requires
        lo <= hi <= line@.len(),
    ensures
        bytes is Some <==> is_plain(line@.subrange(lo as int, hi as int)),
        bytes matches Some(b) ==> b@ == low_bytes(line@.subrange(lo as int, hi as int)),
{
    let ghost word = line@.subrange(lo as int, hi as int);
    let mut bytes: Vec<u8> = Vec::new();
    let mut i: usize = lo;
    while i < hi
        invariant
            lo <= i <= hi <= line@.len(),
            word == line@.subrange(lo as int, hi as int),
            bytes@.len() == i - lo,
            forall|k: int| 0 <= k < i - lo ==> ((#[trigger] word[k]) as u32) < 128 && bytes@[k]
                == word[k] as u8,
        decreases hi - i,
    {
        let c: char = line.get_char(i);
        let code: u32 = c as u32;
        proof {
            assert(word[i - lo] == c);
        }
        if code >= 128 {
            return None;
        }
        bytes.push(code as u8);
        i = i + 1;
    }
    proof {
        assert(bytes@ =~= low_bytes(word));
    }
    Some(bytes)
}

/// Reads a line of the console: the replica or agent to kill, among
/// `count` of them, or nothing where the line names none.
pub fn parse_kill_line(line: &str, count: usize) -> (target: Option<usize>)
    ensures
        target == kill_target(line@, count),
{
    let lo: usize = trimmed_start(line);
    let hi: usize = trimmed_end(line, lo);
    match plain_bytes(line, lo, hi) {
        Some(bytes) => {
            proof {
                assert(bytes@.subrange(0, bytes@.len() as int) =~= bytes@);
            }
            match parse_below(bytes.as_slice(), 0, bytes.len(), count as u64) {
                Some(number) => Some(number as usize),
                None => None,
            }
        },
        None => None,
    }
}

} // verus!
