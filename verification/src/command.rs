//! The command interpreter: a case-insensitive classification of a request's
//! name token into the closed command set.
use vstd::prelude::*;
use vstd::string::StringExecFns;

verus! {

/// The commands the server recognizes. INFO is recognized as a token but has
/// no handler.
#[derive(Debug, PartialEq, Eq, Structural, Clone, Copy)]
pub enum RedisCommand {
    INFO,
    ECHO,
    PING,
    SET,
    GET,
}

impl RedisCommand {
    /// The classification as a fallible conversion: an unrecognized token
    /// comes back as an error message naming it.
    pub fn try_from(value: String) -> (r: Result<RedisCommand, String>)
        ensures
            match r {
                Ok(c) => spec_classify(value@) == Some(c),
                Err(m) => spec_classify(value@) is None && m@ == "Invalid command: "@ + value@,
            },
    {
        match redis_command_parser(value.clone()) {
            Some(c) => Ok(c),
            None => {
                let mut m = String::from_str("Invalid command: ");
                m.append(value.as_str());
                Err(m)
            },
        }
    }
}

/// ASCII lowercasing of one character; anything but `A ..= Z` is unchanged.
pub open spec fn lower_char(c: char) -> char {
    if 65 <= c as u32 <= 90 {
        ((c as u32 + 32) as u32) as char
    } else {
        c
    }
}

pub open spec fn lower_chars(s: Seq<char>) -> Seq<char> {
    Seq::new(s.len(), |i: int| lower_char(s[i]))
}

/// Which command a name token denotes: its ASCII lowercasing must equal one
/// of the five literal names.
pub open spec fn spec_classify(s: Seq<char>) -> Option<RedisCommand> {
    let l = lower_chars(s);
    if l == seq!['p', 'i', 'n', 'g'] {
        Some(RedisCommand::PING)
    } else if l == seq!['s', 'e', 't'] {
        Some(RedisCommand::SET)
    } else if l == seq!['g', 'e', 't'] {
        Some(RedisCommand::GET)
    } else if l == seq!['e', 'c', 'h', 'o'] {
        Some(RedisCommand::ECHO)
    } else if l == seq!['i', 'n', 'f', 'o'] {
        Some(RedisCommand::INFO)
    } else {
        None
    }
}

/// ASCII lowercasing of one byte; anything but `A ..= Z` is unchanged.
pub open spec fn byte_lower(b: u8) -> u8 {
    if 65 <= b <= 90 {
        (b + 32) as u8
    } else {
        b
    }
}

pub open spec fn lower_bytes(s: Seq<u8>) -> Seq<u8> {
    Seq::new(s.len(), |i: int| byte_lower(s[i]))
}

/// Which command a name token, as raw bytes, denotes.
pub open spec fn classify_bytes(s: Seq<u8>) -> Option<RedisCommand> {
    let l = lower_bytes(s);
    if l == seq![112u8, 105u8, 110u8, 103u8] {  // "ping"
        Some(RedisCommand::PING)
    } else if l == seq![115u8, 101u8, 116u8] {  // "set"
        Some(RedisCommand::SET)
    } else if l == seq![103u8, 101u8, 116u8] {  // "get"
        Some(RedisCommand::GET)
    } else if l == seq![101u8, 99u8, 104u8, 111u8] {  // "echo"
        Some(RedisCommand::ECHO)
    } else if l == seq![105u8, 110u8, 102u8, 111u8] {  // "info"
        Some(RedisCommand::INFO)
    } else {
        None
    }
}

fn byte_lower_exec(b: u8) -> (r: u8)
    ensures
        r == byte_lower(b),
{
    if b >= 65 && b <= 90 {
        b + 32
    } else {
        b
    }
}

/// Classifies a name token given as raw bytes, case-insensitively.
pub fn classify_token(token: &[u8]) -> (r: Option<RedisCommand>)
    ensures
        r == classify_bytes(token@),
{
    let n = token.len();
    let mut low: Vec<u8> = Vec::new();
    let mut i: usize = 0;
    while i < n
        invariant
            i <= n,
            n == token@.len(),
            low@ =~= lower_bytes(token@.subrange(0, i as int)),
        decreases n - i,
    {
        low.push(byte_lower_exec(token[i]));
        i = i + 1;
        assert(low@ =~= lower_bytes(token@.subrange(0, i as int)));
    }
    proof {
        assert(token@.subrange(0, n as int) =~= token@);
    }
    if n == 4 {
        let r = if low[0] == 112 && low[1] == 105 && low[2] == 110 && low[3] == 103 {
            Some(RedisCommand::PING)
        } else if low[0] == 101 && low[1] == 99 && low[2] == 104 && low[3] == 111 {
            Some(RedisCommand::ECHO)
        } else if low[0] == 105 && low[1] == 110 && low[2] == 102 && low[3] == 111 {
            Some(RedisCommand::INFO)
        } else {
            None
        };
        proof {
            let l = lower_bytes(token@);
            if l == seq![112u8, 105u8, 110u8, 103u8] {
                assert(low@[0] == 112 && low@[1] == 105 && low@[2] == 110 && low@[3] == 103);
            }
            if l == seq![101u8, 99u8, 104u8, 111u8] {
                assert(low@[0] == 101 && low@[1] == 99 && low@[2] == 104 && low@[3] == 111);
            }
            if l == seq![105u8, 110u8, 102u8, 111u8] {
                assert(low@[0] == 105 && low@[1] == 110 && low@[2] == 102 && low@[3] == 111);
            }
            if r is Some {
                assert(l =~= seq![low@[0], low@[1], low@[2], low@[3]]);
            }
        }
        r
    } else if n == 3 {
        let r = if low[0] == 115 && low[1] == 101 && low[2] == 116 {
            Some(RedisCommand::SET)
        } else if low[0] == 103 && low[1] == 101 && low[2] == 116 {
            Some(RedisCommand::GET)
        } else {
            None
        };
        proof {
            let l = lower_bytes(token@);
            if l == seq![115u8, 101u8, 116u8] {
                assert(low@[0] == 115 && low@[1] == 101 && low@[2] == 116);
            }
            if l == seq![103u8, 101u8, 116u8] {
                assert(low@[0] == 103 && low@[1] == 101 && low@[2] == 116);
            }
            if r is Some {
                assert(l =~= seq![low@[0], low@[1], low@[2]]);
            }
        }
        r
    } else {
        None
    }
}

/// Classifies a name token given as text, case-insensitively: the behaviour
/// of matching `token.to_lowercase()` against the five names.
pub fn redis_command_parser(command: String) -> (r: Option<RedisCommand>)
    ensures
        r == spec_classify(command@),
{
    let s = command.as_str();
    let n = s.unicode_len();
    if n == 4 {
        let c0 = s.get_char(0);
        let c1 = s.get_char(1);
        let c2 = s.get_char(2);
        let c3 = s.get_char(3);
        let r = if (c0 == 'p' || c0 == 'P') && (c1 == 'i' || c1 == 'I') && (c2 == 'n' || c2 == 'N')
            && (c3 == 'g' || c3 == 'G') {
            Some(RedisCommand::PING)
        } else if (c0 == 'e' || c0 == 'E') && (c1 == 'c' || c1 == 'C') && (c2 == 'h' || c2 == 'H')
            && (c3 == 'o' || c3 == 'O') {
            Some(RedisCommand::ECHO)
        } else if (c0 == 'i' || c0 == 'I') && (c1 == 'n' || c1 == 'N') && (c2 == 'f' || c2 == 'F')
            && (c3 == 'o' || c3 == 'O') {
            Some(RedisCommand::INFO)
        } else {
            None
        };
        proof {
            lemma_lower_char_cases(c0);
            lemma_lower_char_cases(c1);
            lemma_lower_char_cases(c2);
            lemma_lower_char_cases(c3);
            let l = lower_chars(command@);
            assert(l =~= seq![
                lower_char(command@[0]),
                lower_char(command@[1]),
                lower_char(command@[2]),
                lower_char(command@[3]),
            ]);
        }
        r
    } else if n == 3 {
        let c0 = s.get_char(0);
        let c1 = s.get_char(1);
        let c2 = s.get_char(2);
        let r = if (c0 == 's' || c0 == 'S') && (c1 == 'e' || c1 == 'E') && (c2 == 't' || c2
            == 'T') {
            Some(RedisCommand::SET)
        } else if (c0 == 'g' || c0 == 'G') && (c1 == 'e' || c1 == 'E') && (c2 == 't' || c2
            == 'T') {
            Some(RedisCommand::GET)
        } else {
            None
        };
        proof {
            lemma_lower_char_cases(c0);
            lemma_lower_char_cases(c1);
            lemma_lower_char_cases(c2);
            let l = lower_chars(command@);
            assert(l =~= seq![
                lower_char(command@[0]),
                lower_char(command@[1]),
                lower_char(command@[2]),
            ]);
        }
        r
    } else {
        proof {
            let l = lower_chars(command@);
            assert(l.len() != 3 && l.len() != 4);
        }
        None
    }
}

/// Characters are equal exactly when their code points are.
proof fn lemma_char_eq(c1: char, c2: char)
    requires
        c1 as u32 == c2 as u32,
    ensures
        c1 == c2,
{
    broadcast use vstd::utf8::char_u32_cast;

}

/// Two tokens that spell the same code points match the same keyword.
proof fn lemma_keyword_agrees(lc: Seq<char>, lb: Seq<u8>, kwc: Seq<char>, kwb: Seq<u8>)
    requires
        lc.len() == lb.len(),
        kwc.len() == kwb.len(),
        forall|i: int| 0 <= i < lc.len() ==> (#[trigger] lc[i]) as u32 == lb[i],
        forall|i: int| 0 <= i < kwc.len() ==> (#[trigger] kwc[i]) as u32 == kwb[i],
    ensures
        (lc == kwc) <==> (lb == kwb),
{
    if lc == kwc {
        assert forall|i: int| 0 <= i < lb.len() implies #[trigger] lb[i] == kwb[i] by {
            assert(lc[i] as u32 == lb[i]);
            assert(kwc[i] as u32 == kwb[i]);
        }
        assert(lb =~= kwb);
    }
    if lb == kwb {
        assert forall|i: int| 0 <= i < lc.len() implies #[trigger] lc[i] == kwc[i] by {
            assert(lc[i] as u32 == lb[i]);
            assert(kwc[i] as u32 == kwb[i]);
            lemma_char_eq(lc[i], kwc[i]);
        }
        assert(lc =~= kwc);
    }
}

/// On a token of ASCII characters, the text classifier and the byte
/// classifier agree.
pub proof fn lemma_classify_agrees(chars: Seq<char>, bytes: Seq<u8>)
    requires
        chars.len() == bytes.len(),
        forall|i: int| 0 <= i < chars.len() ==> (#[trigger] chars[i]) as u32 == bytes[i],
    ensures
        spec_classify(chars) == classify_bytes(bytes),
{
    let lc = lower_chars(chars);
    let lb = lower_bytes(bytes);
    assert forall|i: int| 0 <= i < lc.len() implies (#[trigger] lc[i]) as u32 == lb[i] by {
        lemma_lower_char_cases(chars[i]);
    }
    lemma_keyword_agrees(lc, lb, seq!['p', 'i', 'n', 'g'], seq![112u8, 105u8, 110u8, 103u8]);
    lemma_keyword_agrees(lc, lb, seq!['s', 'e', 't'], seq![115u8, 101u8, 116u8]);
    lemma_keyword_agrees(lc, lb, seq!['g', 'e', 't'], seq![103u8, 101u8, 116u8]);
    lemma_keyword_agrees(lc, lb, seq!['e', 'c', 'h', 'o'], seq![101u8, 99u8, 104u8, 111u8]);
    lemma_keyword_agrees(lc, lb, seq!['i', 'n', 'f', 'o'], seq![105u8, 110u8, 102u8, 111u8]);
}

/// Lowercasing a character either leaves it alone or maps one uppercase
/// ASCII letter 32 code points down.
pub proof fn lemma_lower_char_cases(c: char)
    ensures
        65 <= c as u32 <= 90 ==> lower_char(c) as u32 == c as u32 + 32,
        !(65 <= c as u32 <= 90) ==> lower_char(c) == c,
{
    broadcast use vstd::utf8::char_u32_cast;
    broadcast use vstd::utf8::char_is_scalar;

    if 65 <= c as u32 <= 90 {
        let u = (c as u32 + 32) as u32;
        assert(vstd::utf8::is_scalar(u));
    }
}

} // verus!
