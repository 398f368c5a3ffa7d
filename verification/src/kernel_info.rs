//! What is known of a kernel, and the name of the function that it becomes.

use vstd::prelude::*;

use crate::opts::Opt;

verus! {

/// The character that starts a colour code.
pub open spec fn is_escape(c: char) -> bool {
    c as u32 == 0x1b
}

/// Whether a character is a letter of the Latin alphabet.
pub open spec fn is_letter(c: char) -> bool {
    ('a' <= c <= 'z') || ('A' <= c <= 'Z')
}

/// Whether a character may stand in a generated identifier.
pub open spec fn is_identifier_char(c: char) -> bool {
    is_letter(c) || ('0' <= c <= '9') || c == '_'
}

/// The position from `k` on at which the parameters of a code end.
pub open spec fn parameters_end(s: Seq<char>, k: int) -> int
    decreases s.len() - k,
{
    if 0 <= k < s.len() && (('0' <= s[k] <= '9') || s[k] == ';') {
        parameters_end(s, k + 1)
    } else {
        k
    }
}

/// The length of the code that a text starts with: the escape character, a
/// bracket, parameters and a letter. Nothing if it starts with no whole code.
pub open spec fn code_len(s: Seq<char>) -> Option<int> {
    if s.len() >= 2 && is_escape(s[0]) && s[1] == '[' {
        let end = parameters_end(s, 2);
        if end < s.len() && is_letter(s[end]) {
            Some(end + 1)
        } else {
            None
        }
    } else {
        None
    }
}

/// The hexadecimal digit of a number below sixteen, in capitals.
pub open spec fn hex_digit(n: nat) -> char {
    if n < 10 {
        (48 + n) as char
    } else {
        (55 + n) as char
    }
}

/// A number in hexadecimal, without leading zeros.
pub open spec fn hex(n: nat) -> Seq<char>
    decreases n,
{
    if n < 16 {
        seq![hex_digit(n)]
    } else {
        hex(n / 16).push(hex_digit(n % 16))
    }
}

/// A number in hexadecimal with at least two digits.
pub open spec fn hex_escape(n: nat) -> Seq<char> {
    if n < 16 {
        seq!['0'] + hex(n)
    } else {
        hex(n)
    }
}

/// A character as it stands in an identifier: itself, or its code point.
pub open spec fn escaped(c: char) -> Seq<char> {
    if is_identifier_char(c) {
        seq![c]
    } else {
        hex_escape(c as u32 as nat)
    }
}

/// A name as an identifier from position `k` on: codes are dropped, and what
/// an identifier cannot hold is escaped.
pub open spec fn identifier(s: Seq<char>, k: int) -> Seq<char>
    decreases s.len() - k,
{
    if k < 0 || k >= s.len() {
        Seq::empty()
    } else {
        match code_len(s.skip(k)) {
            Some(n) => if n > 0 {
                identifier(s, k + n)
            } else {
                Seq::empty()
            },
            None => escaped(s[k]) + identifier(s, k + 1),
        }
    }
}

/// Every character of a text may stand in an identifier.
pub open spec fn is_identifier_text(s: Seq<char>) -> bool {
    forall|i: int| 0 <= i < s.len() ==> is_identifier_char(#[trigger] s[i])
}

proof fn lemma_hex(n: nat)
    ensures
        is_identifier_text(hex(n)),
    decreases n,
{
    if n < 16 {
        assert(is_identifier_char(hex_digit(n)));
    } else {
        lemma_hex(n / 16);
        assert(is_identifier_char(hex_digit(n % 16)));
        let rest = hex(n / 16);
        assert forall|i: int| 0 <= i < hex(n).len() implies is_identifier_char(
            #[trigger] hex(n)[i],
        ) by {
            if i < rest.len() {
                assert(is_identifier_char(rest[i]));
            }
        }
    }
}

proof fn lemma_escaped(c: char)
    ensures
        is_identifier_text(escaped(c)),
{
    let n = c as u32 as nat;
    lemma_hex(n);
    if !is_identifier_char(c) && n < 16 {
        let s = hex_escape(n);
        assert forall|i: int| 0 <= i < s.len() implies is_identifier_char(#[trigger] s[i]) by {
            if i > 0 {
                assert(is_identifier_char(hex(n)[i - 1]));
            }
        }
    }
}

/// Whatever the name, what is made of it may stand as an identifier.
pub proof fn lemma_identifier_is_valid(s: Seq<char>, k: int)
    ensures
        is_identifier_text(identifier(s, k)),
    decreases s.len() - k,
{
    if 0 <= k < s.len() {
        match code_len(s.skip(k)) {
            Some(n) => {
                if n > 0 {
                    lemma_identifier_is_valid(s, k + n);
                }
            },
            None => {
                lemma_identifier_is_valid(s, k + 1);
                lemma_escaped(s[k]);
                let head = escaped(s[k]);
                let rest = identifier(s, k + 1);
                let all = head + rest;
                assert forall|i: int| 0 <= i < all.len() implies is_identifier_char(
                    #[trigger] all[i],
                ) by {
                    if i < head.len() {
                        assert(is_identifier_char(head[i]));
                    } else {
                        assert(is_identifier_char(rest[i - head.len()]));
                    }
                }
            },
        }
    }
}

/// A name that already is an identifier stays as it is.
pub proof fn lemma_identifier_is_kept(s: Seq<char>, k: int)
    requires
        is_identifier_text(s),
        0 <= k <= s.len(),
    ensures
        identifier(s, k) == s.skip(k),
    decreases s.len() - k,
{
    if k < s.len() {
        assert(is_identifier_char(s[k]));
        assert(s.skip(k)[0] == s[k]);
        lemma_identifier_is_kept(s, k + 1);
        assert(s.skip(k) =~= seq![s[k]] + s.skip(k + 1));
    } else {
        assert(s.skip(k) =~= Seq::<char>::empty());
    }
}

fn push_hex(out: &mut String, n: u32)
    ensures
        final(out)@ == old(out)@ + hex(n as nat),
    decreases n,
{
    let digit: u8 = (n % 16) as u8;
    if n >= 16 {
        push_hex(out, n / 16);
    }
    if digit < 10 {
        out.push((48u8 + digit) as char);
    } else {
        out.push((55u8 + digit) as char);
    }
    assert(out@ =~= old(out)@ + hex(n as nat));
}

/// What is known of a kernel.
#[derive(Debug)]
pub struct KernelInfo {
    pub name: String,
    pub applied_opts: Vec<Opt>,
    pub dont_use_locals: bool,
}

impl KernelInfo {
    /// What is known of a kernel, put together.
    pub fn new(name: String, applied_opts: Vec<Opt>, dont_use_locals: bool) -> (info: KernelInfo)
        ensures
            info == (KernelInfo { name, applied_opts, dont_use_locals }),
    {
        KernelInfo { name, applied_opts, dont_use_locals }
    }

    /// The name of the function that the kernel becomes: the kernel's name
    /// without colour codes, and with the code point, in hexadecimal, of every
    /// character that an identifier cannot hold.
    pub fn function_name(&self) -> (out: String)
        ensures
            out@ == identifier(self.name@, 0),
            is_identifier_text(out@),
    {
        let text = self.name.as_str();
        let ghost s = text@;
        let len: usize = text.unicode_len();
        let mut out = String::new();
        let mut k: usize = 0;
        while k < len
            invariant
                s == text@,
                len == s.len(),
                k <= len,
                out@ + identifier(s, k as int) == identifier(s, 0),
            decreases len - k,
        {
            let c = text.get_char(k);
            let ghost rest = s.skip(k as int);
            assert(rest[0] == c);
            if c as u32 == 0x1b && k + 1 < len && text.get_char(k + 1) == '[' {
                assert(rest[1] == '[');
                let mut end: usize = k + 2;
                while end < len && ((text.get_char(end) >= '0' && text.get_char(end) <= '9')
                    || text.get_char(end) == ';')
                    invariant
                        s == text@,
                        len == s.len(),
                        rest == s.skip(k as int),
                        k + 2 <= end <= len,
                        parameters_end(rest, 2) == parameters_end(rest, end - k),
                    decreases len - end,
                {
                    assert(rest[end - k] == s[end as int]);
                    end += 1;
                }
                if end < len {
                    assert(rest[end - k] == s[end as int]);
                }
                assert(parameters_end(rest, 2) == end - k);
                if end < len {
                    let last = text.get_char(end);
                    if (last >= 'a' && last <= 'z') || (last >= 'A' && last <= 'Z') {
                        assert(code_len(rest) == Some(end - k + 1));
                        k = end + 1;
                        continue;
                    }
                }
            }
            assert(code_len(rest) is None);
            let ghost had = out@;
            if (c >= 'a' && c <= 'z') || (c >= 'A' && c <= 'Z') || (c >= '0' && c <= '9') || c
                == '_' {
                out.push(c);
            } else {
                let point: u32 = c as u32;
                if point < 16 {
                    out.push('0');
                }
                push_hex(&mut out, point);
            }
            assert(out@ =~= had + escaped(c));
            k += 1;
            assert(out@ + identifier(s, k as int) =~= had + (escaped(c) + identifier(s, k as int)));
        }
        assert(out@ =~= identifier(s, 0));
        proof {
            lemma_identifier_is_valid(s, 0);
        }
        out
    }
}

} // verus!
