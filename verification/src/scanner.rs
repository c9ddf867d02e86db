//! Tokens and lines from a buffer of input bytes.

use vstd::prelude::*;

verus! {

/// Whether `b` is ASCII white space: a space, a tab, a line feed, a form
/// feed or a carriage return.
pub open spec fn is_space(b: u8) -> bool {
    b == 32 || b == 9 || b == 10 || b == 12 || b == 13
}

/// The first index from `from` on at which `s` holds no white space; the
/// length of `s` where there is none.
pub open spec fn skip_spaces(s: Seq<u8>, from: int) -> int
    decreases s.len() - from,
{
    if 0 <= from < s.len() && is_space(s[from]) {
        skip_spaces(s, from + 1)
    } else {
        from
    }
}

/// The first index from `from` on at which `s` holds white space; the
/// length of `s` where there is none.
pub open spec fn skip_token(s: Seq<u8>, from: int) -> int
    decreases s.len() - from,
{
    if 0 <= from < s.len() && !is_space(s[from]) {
        skip_token(s, from + 1)
    } else {
        from
    }
}

/// The first index from `from` on at which `s` holds a line feed; the
/// length of `s` where there is none.
pub open spec fn skip_line(s: Seq<u8>, from: int) -> int
    decreases s.len() - from,
{
    if 0 <= from < s.len() && s[from] != 10 {
        skip_line(s, from + 1)
    } else {
        from
    }
}

/// Where the next token after `from` begins.
pub open spec fn token_start(s: Seq<u8>, from: int) -> int {
    skip_spaces(s, from)
}

/// Where the next token after `from` ends.
pub open spec fn token_end(s: Seq<u8>, from: int) -> int {
    skip_token(s, skip_spaces(s, from))
}

/// The next `n` tokens of `s` after `from`.
pub open spec fn tokens(s: Seq<u8>, from: int, n: nat) -> Seq<Seq<u8>>
    decreases n,
{
    if n == 0 {
        Seq::empty()
    } else {
        seq![s.subrange(token_start(s, from), token_end(s, from))] + tokens(
            s,
            token_end(s, from),
            (n - 1) as nat,
        )
    }
}

/// Where reading stands after `n` tokens have been taken from `from` on.
pub open spec fn after_tokens(s: Seq<u8>, from: int, n: nat) -> int
    decreases n,
{
    if n == 0 {
        from
    } else {
        after_tokens(s, token_end(s, from), (n - 1) as nat)
    }
}

/// What a vector of vectors of bytes holds.
pub open spec fn byte_rows(rows: Seq<Vec<u8>>) -> Seq<Seq<u8>> {
    Seq::new(rows.len(), |k: int| rows[k]@)
}

/// Whether `b` is ASCII white space.
fn is_whitespace(b: u8) -> (space: bool)
    ensures
        space == is_space(b),
{
    b == 32 || b == 9 || b == 10 || b == 12 || b == 13
}

/// A reader of tokens and lines from input held in memory.
pub struct Scanner {
    input: Vec<u8>,
    index: usize,
}

impl Scanner {
    /// The bytes of the input.
    pub closed spec fn input(&self) -> Seq<u8> {
        self.input@
    }

    /// The index of the next byte to be read.
    pub closed spec fn position(&self) -> int {
        self.index as int
    }

    /// The position lies within the input or at its end.
    pub closed spec fn wf(&self) -> bool {
        self.index <= self.input@.len()
    }

    /// A scanner at the beginning of `input`.
    pub fn new(input: Vec<u8>) -> (scanner: Scanner)
        ensures
            scanner.wf(),
            scanner.input() == input@,
            scanner.position() == 0,
    {
        Scanner { input, index: 0 }
    }

    /// The next token: the bytes up to the next white space, white space
    /// before them skipped. At the end of the input the token is empty.
    pub fn next(&mut self) -> (token: Vec<u8>)
        requires
            old(self).wf(),
        ensures
            final(self).wf(),
            final(self).input() == old(self).input(),
            token@ == old(self).input().subrange(
                token_start(old(self).input(), old(self).position()),
                token_end(old(self).input(), old(self).position()),
            ),
            final(self).position() == token_end(old(self).input(), old(self).position()),
    {
        let ghost s = self.input@;
        let ghost from = self.index as int;
        while self.index < self.input.len() && is_whitespace(self.input[self.index])
            invariant
                self.input@ == s,
                from <= self.index <= s.len(),
                skip_spaces(s, self.index as int) == skip_spaces(s, from),
            decreases s.len() - self.index,
        {
            self.index += 1;
        }
        let start = self.index;
        let mut token: Vec<u8> = Vec::new();
        while self.index < self.input.len() && !is_whitespace(self.input[self.index])
            invariant
                self.input@ == s,
                start == skip_spaces(s, from),
                start <= self.index <= s.len(),
                skip_token(s, self.index as int) == skip_token(s, start as int),
                token@ == s.subrange(start as int, self.index as int),
            decreases s.len() - self.index,
        {
            token.push(self.input[self.index]);
            self.index += 1;
            proof {
                assert(token@ =~= s.subrange(start as int, self.index as int));
            }
        }
        token
    }

    /// The next `n` tokens.
    pub fn next_vec(&mut self, n: usize) -> (found: Vec<Vec<u8>>)
        requires
            old(self).wf(),
        ensures
            final(self).wf(),
            final(self).input() == old(self).input(),
            byte_rows(found@) == tokens(old(self).input(), old(self).position(), n as nat),
            final(self).position() == after_tokens(
                old(self).input(),
                old(self).position(),
                n as nat,
            ),
    {
        let ghost s = self.input@;
        let ghost from = self.index as int;
        let mut found: Vec<Vec<u8>> = Vec::new();
        let mut k: usize = 0;
        while k < n
            invariant
                self.wf(),
                self.input@ == s,
                k <= n,
                found@.len() == k,
                byte_rows(found@) + tokens(s, self.index as int, (n - k) as nat) == tokens(
                    s,
                    from,
                    n as nat,
                ),
                after_tokens(s, self.index as int, (n - k) as nat) == after_tokens(s, from, n as nat),
            decreases n - k,
        {
            let ghost here = self.index as int;
            let ghost before = byte_rows(found@);
            let token = self.next();
            found.push(token);
            proof {
                assert(byte_rows(found@) =~= before.push(s.subrange(
                    token_start(s, here),
                    token_end(s, here),
                )));
                assert(tokens(s, here, (n - k) as nat) == seq![
                    s.subrange(token_start(s, here), token_end(s, here)),
                ] + tokens(s, token_end(s, here), (n - k - 1) as nat));
                assert(byte_rows(found@) + tokens(s, token_end(s, here), (n - k - 1) as nat)
                    =~= before + tokens(s, here, (n - k) as nat));
            }
            k += 1;
        }
        proof {
            assert(byte_rows(found@) + Seq::<Seq<u8>>::empty() =~= byte_rows(found@));
        }
        found
    }

    /// The rest of the line: white space is skipped first, line feeds
    /// among it, then the bytes up to the next line feed are taken and the
    /// line feed is passed.
    pub fn next_line(&mut self) -> (line: Vec<u8>)
        requires
            old(self).wf(),
        ensures
            final(self).wf(),
            final(self).input() == old(self).input(),
            line@ == old(self).input().subrange(
                skip_spaces(old(self).input(), old(self).position()),
                skip_line(
                    old(self).input(),
                    skip_spaces(old(self).input(), old(self).position()),
                ),
            ),
            final(self).position() == if skip_line(
                old(self).input(),
                skip_spaces(old(self).input(), old(self).position()),
            ) < old(self).input().len() {
                skip_line(
                    old(self).input(),
                    skip_spaces(old(self).input(), old(self).position()),
                ) + 1
            } else {
                old(self).input().len() as int
            },
    {
        let ghost s = self.input@;
        let ghost from = self.index as int;
        while self.index < self.input.len() && is_whitespace(self.input[self.index])
            invariant
                self.input@ == s,
                from <= self.index <= s.len(),
                skip_spaces(s, self.index as int) == skip_spaces(s, from),
            decreases s.len() - self.index,
        {
            self.index += 1;
        }
        let start = self.index;
        let mut line: Vec<u8> = Vec::new();
        while self.index < self.input.len() && self.input[self.index] != 10
            invariant
                self.input@ == s,
                start == skip_spaces(s, from),
                start <= self.index <= s.len(),
                skip_line(s, self.index as int) == skip_line(s, start as int),
                line@ == s.subrange(start as int, self.index as int),
            decreases s.len() - self.index,
        {
            line.push(self.input[self.index]);
            self.index += 1;
            proof {
                assert(line@ =~= s.subrange(start as int, self.index as int));
            }
        }
        if self.index < self.input.len() && self.input[self.index] == 10 {
            self.index += 1;
        }
        line
    }
}

} // verus!
