//! Input lines and the passwords in them.

use vstd::prelude::*;

use crate::output::{lines_bytes, NEWLINE};

verus! {

pub const CARRIAGE_RETURN: u8 = 13;

pub const COLON: u8 = 58;

/// `memchr::memchr`: the index of the first occurrence of `needle` in `haystack`, or `None` if it
/// does not occur.
pub assume_specification[ memchr::memchr ](needle: u8, haystack: &[u8]) -> (r: Option<usize>)
    ensures
        match r {
            Some(i) => {
                &&& i < haystack@.len()
                &&& haystack@[i as int] == needle
                &&& forall|j: int| 0 <= j < i ==> haystack@[j] != needle
            },
            None => forall|j: int| 0 <= j < haystack@.len() ==> haystack@[j] != needle,
        },
;

/// `memchr::memrchr`: the index of the last occurrence of `needle` in `haystack`, or `None` if it
/// does not occur.
pub assume_specification[ memchr::memrchr ](needle: u8, haystack: &[u8]) -> (r: Option<usize>)
    ensures
        match r {
            Some(i) => {
                &&& i < haystack@.len()
                &&& haystack@[i as int] == needle
                &&& forall|j: int| i < j < haystack@.len() ==> haystack@[j] != needle
            },
            None => forall|j: int| 0 <= j < haystack@.len() ==> haystack@[j] != needle,
        },
;

/// The byte ends lines: a line feed or a carriage return.
pub open spec fn is_line_end(b: u8) -> bool {
    b == NEWLINE || b == CARRIAGE_RETURN
}

/// The line without the line ends behind it.
pub open spec fn trimmed(line: Seq<u8>) -> Seq<u8>
    decreases line.len(),
{
    if line.len() > 0 && is_line_end(line.last()) {
        trimmed(line.drop_last())
    } else {
        line
    }
}

/// Where the last colon of the line is; -1 if it has none.
pub open spec fn last_colon(line: Seq<u8>) -> int
    decreases line.len(),
{
    if line.len() == 0 {
        -1
    } else if line.last() == COLON {
        line.len() - 1
    } else {
        last_colon(line.drop_last())
    }
}

/// The password of a line: what follows its last colon, or the whole line if it has none. An empty
/// line has no password. A line that ends in a colon has none either, unless trailing colons are
/// kept: then it is itself the password.
pub open spec fn password_of(line: Seq<u8>, keep_trailing_colon: bool) -> Option<Seq<u8>> {
    let t = trimmed(line);
    if t.len() == 0 {
        None
    } else if last_colon(t) < t.len() - 1 {
        Some(t.skip(last_colon(t) + 1))
    } else if keep_trailing_colon {
        Some(t)
    } else {
        None
    }
}

proof fn lemma_last_colon(line: Seq<u8>, at: int)
    requires
        -1 <= at < line.len(),
        at >= 0 ==> line[at] == COLON,
        forall|j: int| at < j < line.len() ==> line[j] != COLON,
    ensures
        last_colon(line) == at,
    decreases line.len(),
{
    if line.len() > 0 && line.last() != COLON {
        lemma_last_colon(line.drop_last(), at);
    }
}

/// A password has no line end at its end and is never empty. With trailing colons not kept it has
/// no colon in it.
pub proof fn lemma_password_shape(line: Seq<u8>, keep_trailing_colon: bool)
    ensures
        password_of(line, keep_trailing_colon) matches Some(pw) ==> {
            &&& pw.len() > 0
            &&& !is_line_end(pw.last())
            &&& !keep_trailing_colon ==> forall|i: int| 0 <= i < pw.len() ==> pw[i] != COLON
        },
{
    lemma_trimmed(line);
    lemma_last_colon_found(trimmed(line));
}

proof fn lemma_trimmed(line: Seq<u8>)
    ensures
        trimmed(line).len() <= line.len(),
        trimmed(line) == line.take(trimmed(line).len() as int),
        trimmed(line).len() > 0 ==> !is_line_end(trimmed(line).last()),
    decreases line.len(),
{
    if line.len() > 0 && is_line_end(line.last()) {
        lemma_trimmed(line.drop_last());
        let n = trimmed(line).len() as int;
        assert(line.drop_last().take(n) =~= line.take(n));
    } else {
        assert(line.take(line.len() as int) =~= line);
    }
}

proof fn lemma_last_colon_found(line: Seq<u8>)
    ensures
        -1 <= last_colon(line) < line.len(),
        forall|j: int| last_colon(line) < j < line.len() ==> line[j] != COLON,
    decreases line.len(),
{
    if line.len() > 0 && line.last() != COLON {
        let shorter = line.drop_last();
        lemma_last_colon_found(shorter);
        assert forall|j: int| last_colon(line) < j < line.len() implies line[j] != COLON by {
            if j < shorter.len() {
                assert(line[j] == shorter[j]);
            }
        }
    }
}

/// Strips line ends off the end of a line.
pub fn trim_end(line: &[u8]) -> (r: &[u8])
    ensures
        r@ == trimmed(line@),
{
    let mut rest: &[u8] = line;
    while rest.len() > 0 && (rest[rest.len() - 1] == NEWLINE || rest[rest.len() - 1]
        == CARRIAGE_RETURN)
        invariant
            trimmed(rest@) == trimmed(line@),
        decreases rest@.len(),
    {
        let ghost before = rest@;
        rest = &rest[0..rest.len() - 1];
        assert(rest@ =~= before.drop_last());
    }
    rest
}

/// Extracts the password from a line.
pub fn extract_password(line: &[u8], keep_trailing_colon: bool) -> (r: Option<&[u8]>)
    ensures
        match r {
            Some(pw) => password_of(line@, keep_trailing_colon) == Some(pw@),
            None => password_of(line@, keep_trailing_colon) is None,
        },
{
    let line = trim_end(line);
    if line.len() == 0 {
        return None;
    }
    match memchr::memrchr(COLON, line) {
        Some(last) => {
            proof {
                lemma_last_colon(line@, last as int);
            }
            let pw = &line[last + 1..line.len()];
            assert(pw@ =~= line@.skip(last + 1));
            if pw.len() > 0 {
                Some(pw)
            } else if keep_trailing_colon {
                Some(line)
            } else {
                None
            }
        },
        None => {
            proof {
                lemma_last_colon(line@, -1);
                assert(line@.skip(0) =~= line@);
            }
            Some(line)
        },
    }
}

/// Where the first line feed is; the length if there is none.
pub open spec fn first_newline(data: Seq<u8>) -> int
    decreases data.len(),
{
    if data.len() == 0 || data[0] == NEWLINE {
        0
    } else {
        1 + first_newline(data.drop_first())
    }
}

/// The passwords of all lines of the data, in order.
pub open spec fn passwords_in(data: Seq<u8>, keep_trailing_colon: bool) -> Seq<Seq<u8>>
    decreases data.len(),
{
    if data.len() == 0 {
        Seq::empty()
    } else {
        let n = first_newline(data);
        let rest = if n < data.len() {
            data.skip(n + 1)
        } else {
            Seq::empty()
        };
        let here = match password_of(data.take(n), keep_trailing_colon) {
            Some(pw) => seq![pw],
            None => Seq::empty(),
        };
        proof {
            lemma_first_newline(data);
        }
        here + passwords_in(rest, keep_trailing_colon)
    }
}

/// What [`first_newline`] finds.
pub proof fn lemma_first_newline(data: Seq<u8>)
    ensures
        0 <= first_newline(data) <= data.len(),
        first_newline(data) < data.len() ==> data[first_newline(data)] == NEWLINE,
        forall|j: int| 0 <= j < first_newline(data) ==> data[j] != NEWLINE,
    decreases data.len(),
{
    if data.len() > 0 && data[0] != NEWLINE {
        let tail = data.drop_first();
        lemma_first_newline(tail);
        assert forall|j: int| 0 <= j < first_newline(data) implies data[j] != NEWLINE by {
            if j > 0 {
                assert(data[j] == tail[j - 1]);
            }
        }
    }
}

/// The position of the first line feed is determined by what it is.
pub proof fn lemma_first_newline_is(data: Seq<u8>, n: int)
    requires
        0 <= n <= data.len(),
        n < data.len() ==> data[n] == NEWLINE,
        forall|j: int| 0 <= j < n ==> data[j] != NEWLINE,
    ensures
        first_newline(data) == n,
{
    lemma_first_newline(data);
    let m = first_newline(data);
    if m < n {
        assert(data[m] != NEWLINE);
    } else if n < m {
        assert(data[n] != NEWLINE);
    }
}

/// Data has no more passwords than bytes.
pub proof fn lemma_passwords_len(data: Seq<u8>, keep_trailing_colon: bool)
    ensures
        passwords_in(data, keep_trailing_colon).len() <= data.len(),
    decreases data.len(),
{
    if data.len() > 0 {
        lemma_first_newline(data);
        let n = first_newline(data);
        if n < data.len() {
            lemma_passwords_len(data.skip(n + 1), keep_trailing_colon);
        } else {
            lemma_passwords_len(Seq::empty(), keep_trailing_colon);
        }
    }
}

/// Data can be cut behind any line feed: the passwords of the two parts are those of the whole.
pub proof fn lemma_passwords_concat(a: Seq<u8>, b: Seq<u8>, keep_trailing_colon: bool)
    requires
        a.len() == 0 || a.last() == NEWLINE,
    ensures
        passwords_in(a + b, keep_trailing_colon) == passwords_in(a, keep_trailing_colon)
            + passwords_in(b, keep_trailing_colon),
    decreases a.len(),
{
    if a.len() == 0 {
        assert(a + b =~= b);
        assert(passwords_in(a, keep_trailing_colon) + passwords_in(b, keep_trailing_colon)
            =~= passwords_in(b, keep_trailing_colon));
    } else {
        let n = first_newline(a);
        lemma_first_newline(a);
        assert(n < a.len()) by {
            if n == a.len() {
                assert(a[a.len() - 1] != NEWLINE);
            }
        }
        let ab = a + b;
        assert forall|j: int| 0 <= j < n implies ab[j] != NEWLINE by {
            assert(ab[j] == a[j]);
        }
        lemma_first_newline_is(ab, n);
        let rest = a.skip(n + 1);
        assert(ab.skip(n + 1) =~= rest + b);
        assert(ab.take(n) =~= a.take(n));
        if rest.len() > 0 {
            assert(rest.last() == a.last());
        }
        lemma_passwords_concat(rest, b, keep_trailing_colon);
        assert(passwords_in(ab, keep_trailing_colon) =~= passwords_in(a, keep_trailing_colon)
            + passwords_in(b, keep_trailing_colon));
    }
}

/// The password stays itself when it is written on a line of its own and read again.
pub open spec fn reads_back(pw: Seq<u8>, keep_trailing_colon: bool) -> bool {
    &&& forall|i: int| 0 <= i < pw.len() ==> pw[i] != NEWLINE
    &&& password_of(pw, keep_trailing_colon) == Some(pw)
}

proof fn lemma_password_reads_back(line: Seq<u8>, keep: bool)
    requires
        forall|i: int| 0 <= i < line.len() ==> line[i] != NEWLINE,
    ensures
        password_of(line, keep) matches Some(pw) ==> reads_back(pw, keep),
{
    lemma_trimmed(line);
    let t = trimmed(line);
    lemma_last_colon_found(t);
    if let Some(pw) = password_of(line, keep) {
        assert forall|i: int| 0 <= i < pw.len() implies pw[i] != NEWLINE by {
            if last_colon(t) < t.len() - 1 {
                assert(pw[i] == line[last_colon(t) + 1 + i]);
            } else {
                assert(pw[i] == line[i]);
            }
        }
        assert(trimmed(pw) == pw);
        if last_colon(t) < t.len() - 1 {
            assert forall|j: int| -1 < j < pw.len() implies pw[j] != COLON by {
                assert(pw[j] == t[last_colon(t) + 1 + j]);
            }
            lemma_last_colon(pw, -1);
            assert(pw.skip(0) =~= pw);
        }
    }
}

/// Every password that is found in data reads back.
pub proof fn lemma_passwords_read_back(data: Seq<u8>, keep_trailing_colon: bool)
    ensures
        forall|i: int|
            0 <= i < passwords_in(data, keep_trailing_colon).len() ==> reads_back(
                #[trigger] passwords_in(data, keep_trailing_colon)[i],
                keep_trailing_colon,
            ),
    decreases data.len(),
{
    if data.len() > 0 {
        lemma_first_newline(data);
        let n = first_newline(data);
        lemma_password_reads_back(data.take(n), keep_trailing_colon);
        let rest = if n < data.len() {
            data.skip(n + 1)
        } else {
            Seq::empty()
        };
        lemma_passwords_read_back(rest, keep_trailing_colon);
        let all = passwords_in(data, keep_trailing_colon);
        let tail = passwords_in(rest, keep_trailing_colon);
        assert forall|i: int| 0 <= i < all.len() implies reads_back(
            #[trigger] all[i],
            keep_trailing_colon,
        ) by {
            if password_of(data.take(n), keep_trailing_colon) is Some {
                if i > 0 {
                    assert(all[i] == tail[i - 1]);
                }
            } else {
                assert(all[i] == tail[i]);
            }
        }
    }
}

/// Passwords that are written one per line are read again as they were.
pub proof fn lemma_lines_read_back(pws: Seq<Seq<u8>>, keep_trailing_colon: bool)
    requires
        forall|i: int| 0 <= i < pws.len() ==> reads_back(#[trigger] pws[i], keep_trailing_colon),
    ensures
        passwords_in(lines_bytes(pws), keep_trailing_colon) == pws,
        pws.len() > 0 ==> lines_bytes(pws).len() > 0 && lines_bytes(pws).last() == NEWLINE,
    decreases pws.len(),
{
    if pws.len() > 0 {
        let shorter = pws.drop_last();
        let pw = pws[pws.len() - 1];
        assert(reads_back(pw, keep_trailing_colon));
        assert forall|i: int| 0 <= i < shorter.len() implies reads_back(
            #[trigger] shorter[i],
            keep_trailing_colon,
        ) by {
            assert(shorter[i] == pws[i]);
        }
        lemma_lines_read_back(shorter, keep_trailing_colon);
        let line = pw + seq![NEWLINE];
        lemma_first_newline_is(line, pw.len() as int);
        assert(line.take(pw.len() as int) =~= pw);
        assert(line.skip(pw.len() as int + 1) =~= Seq::<u8>::empty());
        assert(passwords_in(Seq::empty(), keep_trailing_colon) =~= Seq::<Seq<u8>>::empty());
        assert(passwords_in(line, keep_trailing_colon) =~= seq![pw]);
        assert(lines_bytes(pws) =~= lines_bytes(shorter) + line);
        lemma_passwords_concat(lines_bytes(shorter), line, keep_trailing_colon);
        assert(shorter + seq![pw] =~= pws);
    }
}

/// What is left of a line when its ends are taken off: the longest front part that does not end in
/// byte 10 or 13. Whatever is behind it is one of these two, and a line that does not end in one of
/// them stays as it is.
pub proof fn lemma_trimming_takes_line_ends(line: Seq<u8>)
    ensures
        trimmed(line).len() <= line.len(),
        forall|i: int| 0 <= i < trimmed(line).len() ==> trimmed(line)[i] == line[i],
        forall|i: int| trimmed(line).len() <= i < line.len() ==> line[i] == 10 || line[i] == 13,
        trimmed(line).len() > 0 ==> trimmed(line)[trimmed(line).len() - 1] != 10 && trimmed(line)[
        trimmed(line).len() - 1] != 13,
        line.len() > 0 && line[line.len() - 1] != 10 && line[line.len() - 1] != 13 ==> trimmed(line)
            == line,
    decreases line.len(),
{
    if line.len() > 0 && (line[line.len() - 1] == 10 || line[line.len() - 1] == 13) {
        let shorter = line.drop_last();
        lemma_trimming_takes_line_ends(shorter);
        assert forall|i: int| 0 <= i < trimmed(line).len() implies trimmed(line)[i] == line[i] by {
            assert(trimmed(shorter)[i] == shorter[i]);
        }
        assert forall|i: int| trimmed(line).len() <= i < line.len() implies line[i] == 10
            || line[i] == 13 by {
            if i < shorter.len() {
                assert(line[i] == shorter[i]);
            }
        }
    }
}

/// Taking the ends off a line that does not end in byte 10 or 13 and any such bytes behind it gives
/// the line.
pub proof fn lemma_trimmed_behind(t: Seq<u8>, e: Seq<u8>)
    requires
        t.len() > 0 ==> t[t.len() - 1] != 10 && t[t.len() - 1] != 13,
        forall|i: int| 0 <= i < e.len() ==> e[i] == 10 || e[i] == 13,
    ensures
        trimmed(t + e) == t,
{
    let line = t + e;
    lemma_trimming_takes_line_ends(line);
    let n = trimmed(line).len() as int;
    if n > t.len() {
        assert(line[n - 1] == e[n - 1 - t.len()]);
    } else if n < t.len() {
        assert(line[t.len() - 1] == t[t.len() - 1]);
    }
    assert forall|i: int| 0 <= i < n implies trimmed(line)[i] == t[i] by {
        assert(trimmed(line)[i] == line[i]);
    }
    assert(trimmed(line) =~= t);
}

/// Every password is found: behind anything that ends in a colon, or at the start of the line, what
/// has no colon in it and is not empty is the password of the line, however long it is and whatever
/// line ends follow.
pub proof fn lemma_password_is_found(p: Seq<u8>, pw: Seq<u8>, e: Seq<u8>, keep_trailing_colon: bool)
    requires
        p.len() == 0 || p[p.len() - 1] == 58,
        pw.len() > 0,
        forall|i: int| 0 <= i < pw.len() ==> pw[i] != 58,
        pw[pw.len() - 1] != 10 && pw[pw.len() - 1] != 13,
        forall|i: int| 0 <= i < e.len() ==> e[i] == 10 || e[i] == 13,
    ensures
        password_of(p + pw + e, keep_trailing_colon) == Some(pw),
{
    let t = p + pw;
    lemma_trimmed_behind(t, e);
    assert forall|j: int| p.len() - 1 < j < t.len() implies t[j] != COLON by {
        assert(t[j] == pw[j - p.len()]);
    }
    lemma_last_colon(t, p.len() - 1);
    assert(t.skip(p.len() as int) =~= pw);
}

/// A line that ends in a colon is itself the password if trailing colons are kept, and has none
/// otherwise, whatever comes before that colon and whatever line ends follow.
pub proof fn lemma_trailing_colon(line: Seq<u8>, e: Seq<u8>)
    requires
        line.len() > 0,
        line[line.len() - 1] == 58,
        forall|i: int| 0 <= i < e.len() ==> e[i] == 10 || e[i] == 13,
    ensures
        password_of(line + e, true) == Some(line),
        password_of(line + e, false) is None,
{
    lemma_trimmed_behind(line, e);
    lemma_last_colon(line, line.len() - 1);
}

/// A line of nothing but line ends has no password.
pub proof fn lemma_blank_line(e: Seq<u8>, keep_trailing_colon: bool)
    requires
        forall|i: int| 0 <= i < e.len() ==> e[i] == 10 || e[i] == 13,
    ensures
        password_of(e, keep_trailing_colon) is None,
{
    lemma_trimmed_behind(Seq::empty(), e);
    assert(Seq::<u8>::empty() + e =~= e);
}

/// Data without byte 10 is one line, with or without that byte behind it.
pub proof fn lemma_one_line(line: Seq<u8>, keep_trailing_colon: bool)
    requires
        forall|i: int| 0 <= i < line.len() ==> line[i] != 10,
    ensures
        passwords_in(line, keep_trailing_colon) == match password_of(line, keep_trailing_colon) {
            Some(pw) => seq![pw],
            None => Seq::empty(),
        },
        passwords_in(line + seq![10u8], keep_trailing_colon) == match password_of(
            line,
            keep_trailing_colon,
        ) {
            Some(pw) => seq![pw],
            None => Seq::empty(),
        },
{
    let ended = line + seq![10u8];
    let none = Seq::<u8>::empty();
    lemma_first_newline_is(line, line.len() as int);
    lemma_first_newline_is(ended, line.len() as int);
    assert(line.take(line.len() as int) =~= line);
    assert(ended.take(line.len() as int) =~= line);
    assert(ended.skip(line.len() as int + 1) =~= none);
    assert(passwords_in(none, keep_trailing_colon) =~= Seq::<Seq<u8>>::empty());
    if line.len() == 0 {
        lemma_blank_line(line, keep_trailing_colon);
        assert(line =~= none);
    }
    assert(passwords_in(line, keep_trailing_colon) =~= match password_of(
        line,
        keep_trailing_colon,
    ) {
        Some(pw) => seq![pw],
        None => Seq::empty(),
    });
    assert(passwords_in(ended, keep_trailing_colon) =~= match password_of(
        line,
        keep_trailing_colon,
    ) {
        Some(pw) => seq![pw],
        None => Seq::empty(),
    });
}

/// Lines are read one after another: data can be cut behind any byte 10.
pub proof fn lemma_line_after_line(a: Seq<u8>, b: Seq<u8>, keep_trailing_colon: bool)
    ensures
        passwords_in(a + seq![10u8] + b, keep_trailing_colon) == passwords_in(
            a + seq![10u8],
            keep_trailing_colon,
        ) + passwords_in(b, keep_trailing_colon),
{
    lemma_passwords_concat(a + seq![10u8], b, keep_trailing_colon);
}

/// The first line feed is the first byte 10.
pub proof fn lemma_line_feed(data: Seq<u8>)
    ensures
        0 <= first_newline(data) <= data.len(),
        first_newline(data) < data.len() ==> data[first_newline(data)] == 10,
        forall|j: int| 0 <= j < first_newline(data) ==> data[j] != 10,
{
    lemma_first_newline(data);
}

} // verus!
