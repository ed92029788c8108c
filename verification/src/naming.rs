//! Building the names of temporary files, reloaded library copies and
//! per-process file descriptor links.

use vstd::prelude::*;
use vstd::string::StrSliceExecFns;

verus! {

/// The character of a decimal digit.
pub open spec fn digit_char(d: nat) -> char {
    (48 + d) as char
}

/// The decimal digits of `n`, most significant first, without leading zeros.
pub open spec fn decimal(n: nat) -> Seq<char>
    decreases n,
{
    if n < 10 {
        seq![digit_char(n)]
    } else {
        decimal(n / 10).push(digit_char(n % 10))
    }
}

/// Appends the decimal digits of `n` to the string.
pub fn push_decimal(s: &mut String, n: u128)
    ensures
        final(s)@ == old(s)@ + decimal(n as nat),
    decreases n,
{
    if n >= 10 {
        push_decimal(s, n / 10);
    }
    let d = (n % 10) as u8;
    s.push((48u8 + d) as char);
    proof {
        if n >= 10 {
            assert(old(s)@ + decimal((n / 10) as nat) + seq![digit_char((n % 10) as nat)] =~= old(s)@
                + decimal(n as nat));
        } else {
            assert(old(s)@ + decimal(n as nat) =~= old(s)@.push(digit_char(n as nat)));
        }
    }
}

/// Appends the characters of `text` to the string.
pub fn push_text(s: &mut String, text: &str)
    ensures
        final(s)@ == old(s)@ + text@,
{
    let n = text.unicode_len();
    let ghost start = s@;
    for i in 0..n
        invariant
            n == text@.len(),
            s@ == start + text@.subrange(0, i as int),
    {
        s.push(text.get_char(i));
        assert(s@ =~= start + text@.subrange(0, i + 1));
    }
    assert(text@.subrange(0, n as int) =~= text@);
}

/// The name of a temporary file: `tmp_`, the timestamp and the attempt index
/// in decimal, `_`, the extra number in decimal, and the extension after a
/// dot if there is one.
pub open spec fn temp_file_name_spec(timestamp: nat, index: nat, extra: nat, extension: Option<
    Seq<char>,
>) -> Seq<char> {
    seq!['t', 'm', 'p', '_'] + decimal(timestamp) + decimal(index) + seq!['_'] + decimal(extra)
        + match extension {
        Some(e) => seq!['.'] + e,
        None => Seq::empty(),
    }
}

/// Builds the name of a temporary file from a timestamp, the index of the
/// attempt, an extra number that tells callers apart (such as a thread id) and
/// an optional extension without the dot.
pub fn temp_file_name(timestamp: u128, index: usize, extra: u64, extension: Option<&str>) -> (r:
    String)
    ensures
        r@ == temp_file_name_spec(
            timestamp as nat,
            index as nat,
            extra as nat,
            match extension {
                Some(e) => Some(e@),
                None => None,
            },
        ),
{
    let mut name = String::new();
    name.push('t');
    name.push('m');
    name.push('p');
    name.push('_');
    push_decimal(&mut name, timestamp);
    push_decimal(&mut name, index as u128);
    name.push('_');
    push_decimal(&mut name, extra as u128);
    match extension {
        Some(e) => {
            name.push('.');
            push_text(&mut name, e);
        },
        None => {},
    }
    proof {
        let base = seq!['t', 'm', 'p', '_'] + decimal(timestamp as nat) + decimal(index as nat)
            + seq!['_'] + decimal(extra as nat);
        match extension {
            Some(e) => {
                assert(name@ =~= base + (seq!['.'] + e@));
            },
            None => {
                assert(name@ =~= base + Seq::<char>::empty());
            },
        }
    }
    name
}

/// The extension of the `counter`-th copy of a hot-reloaded library:
/// `tmp_` and the counter in decimal.
pub fn reload_extension(counter: usize) -> (r: String)
    ensures
        r@ == seq!['t', 'm', 'p', '_'] + decimal(counter as nat),
{
    let mut ext = String::new();
    ext.push('t');
    ext.push('m');
    ext.push('p');
    ext.push('_');
    push_decimal(&mut ext, counter as u128);
    ext
}

/// The path of the link to an open file descriptor of the current process on
/// Linux: `/proc/self/fd/` and the descriptor in decimal.
pub fn fd_link_path(fd: u32) -> (r: String)
    ensures
        r@ == seq!['/', 'p', 'r', 'o', 'c', '/', 's', 'e', 'l', 'f', '/', 'f', 'd', '/'] + decimal(
            fd as nat,
        ),
{
    let mut path = String::new();
    path.push('/');
    path.push('p');
    path.push('r');
    path.push('o');
    path.push('c');
    path.push('/');
    path.push('s');
    path.push('e');
    path.push('l');
    path.push('f');
    path.push('/');
    path.push('f');
    path.push('d');
    path.push('/');
    push_decimal(&mut path, fd as u128);
    path
}

/// The bytes before the first NUL byte of a C string buffer, or `None` if the
/// buffer holds no NUL byte.
pub fn until_nul(buffer: &[u8]) -> (r: Option<Vec<u8>>)
    ensures
        r is None <==> forall|i: int| 0 <= i < buffer@.len() ==> buffer@[i] != 0,
        r matches Some(v) ==> {
            &&& v@.len() < buffer@.len()
            &&& buffer@[v@.len() as int] == 0
            &&& v@ == buffer@.subrange(0, v@.len() as int)
            &&& forall|i: int| 0 <= i < v@.len() ==> v@[i] != 0
        },
{
    let n = buffer.len();
    let mut result: Vec<u8> = Vec::new();
    for i in 0..n
        invariant
            n == buffer@.len(),
            result@ == buffer@.subrange(0, i as int),
            forall|k: int| 0 <= k < i ==> buffer@[k] != 0,
    {
        if buffer[i] == 0 {
            return Some(result);
        }
        result.push(buffer[i]);
        assert(result@ =~= buffer@.subrange(0, i + 1));
    }
    None
}

/// The first `written` units of a buffer that a system call filled, where it
/// reports having written `written` of them: none where it wrote nothing, or
/// reports more than the buffer holds.
pub fn written_prefix(buffer: &[u16], written: u32) -> (r: Option<Vec<u16>>)
    ensures
        r is Some <==> 0 < written <= buffer@.len(),
        r matches Some(v) ==> v@ == buffer@.subrange(0, written as int),
{
    let n = buffer.len();
    if written == 0 || written as usize > n {
        return None;
    }
    let w = written as usize;
    let mut result: Vec<u16> = Vec::new();
    for i in 0..w
        invariant
            w == written,
            w <= n,
            n == buffer@.len(),
            result@ == buffer@.subrange(0, i as int),
    {
        result.push(buffer[i]);
        assert(result@ =~= buffer@.subrange(0, i + 1));
    }
    Some(result)
}

} // verus!
