//! The decisions of a token and line scanner over a growing byte buffer.
//!
//! A reader appends input to a buffer; these functions say where the next token or line lies
//! in it, or that more input is needed first.
use vstd::prelude::*;

verus! {

/// ASCII white space, as `u8::is_ascii_whitespace` defines it: space, tab, line feed, form
/// feed and carriage return.
pub open spec fn is_space(b: u8) -> bool {
    b == 0x20 || b == 0x09 || b == 0x0a || b == 0x0c || b == 0x0d
}

pub fn is_ascii_space(b: u8) -> (r: bool)
    ensures
        r == is_space(b),
{
    b == 0x20 || b == 0x09 || b == 0x0a || b == 0x0c || b == 0x0d
}

/// The first position at or after `begin` whose byte satisfies `predicate`, if any.
pub fn position<P: Fn(u8) -> bool>(predicate: P, buf: &[u8], begin: usize) -> (r: Option<usize>)
    requires
        forall|x: u8| predicate.requires((x,)),
    ensures
        r is Some ==> {
            let i = r->Some_0;
            &&& begin <= i < buf@.len()
            &&& predicate.ensures((buf@[i as int],), true)
            &&& forall|k: int| begin <= k < i ==> predicate.ensures((#[trigger] buf@[k],), false)
        },
        r is None ==> forall|k: int|
            begin <= k < buf@.len() ==> predicate.ensures((#[trigger] buf@[k],), false),
{
    let mut i = begin;
    while i < buf.len()
        invariant
            forall|x: u8| predicate.requires((x,)),
            begin <= i,
            forall|k: int| begin <= k < i && k < buf@.len() ==> predicate.ensures((#[trigger] buf@[k],), false),
        decreases buf@.len() - i,
    {
        if predicate(buf[i]) {
            return Some(i);
        }
        i = i + 1;
    }
    None
}

/// Where the next token lies, or what is needed to know it.
pub enum TokenStep {
    /// The token occupies `[start, end)`.
    Token(usize, usize),
    /// The buffer ends before the token is known to end: read more input first.
    NeedMore,
    /// The input holds no further token.
    Exhausted,
}

/// The first position at or after `begin` whose byte is (`space`) or is not white space, if any.
pub open spec fn first_from(s: Seq<u8>, begin: int, space: bool) -> Option<int>
    decreases s.len() - begin,
{
    if begin >= s.len() {
        None
    } else if is_space(s[begin]) == space {
        Some(begin)
    } else {
        first_from(s, begin + 1, space)
    }
}

proof fn lemma_first_from(s: Seq<u8>, begin: int, space: bool, i: int)
    requires
        0 <= begin <= i <= s.len(),
        forall|k: int| begin <= k < i ==> is_space(#[trigger] s[k]) != space,
    ensures
        i < s.len() && is_space(s[i]) == space ==> first_from(s, begin, space) == Some(i),
        i == s.len() ==> first_from(s, begin, space) is None,
    decreases i - begin,
{
    if begin < i {
        lemma_first_from(s, begin + 1, space, i);
    }
}

fn first_from_exec(buf: &[u8], begin: usize, space: bool) -> (r: Option<usize>)
    ensures
        r is Some ==> first_from(buf@, begin as int, space) == Some(r->Some_0 as int),
        r is None ==> first_from(buf@, begin as int, space) is None,
{
    let mut i = begin;
    while i < buf.len()
        invariant
            begin <= i,
            forall|k: int| begin <= k < i && k < buf@.len() ==> is_space(#[trigger] buf@[k]) != space,
        decreases buf@.len() - i,
    {
        if is_ascii_space(buf[i]) == space {
            proof {
                lemma_first_from(buf@, begin as int, space, i as int);
            }
            return Some(i);
        }
        i = i + 1;
    }
    proof {
        if begin <= buf@.len() {
            lemma_first_from(buf@, begin as int, space, buf@.len() as int);
        }
    }
    None
}

/// The next token of `s` at or after `begin`: a maximal run of bytes that are not white
/// space. `eof` says that no more input will come.
pub open spec fn token_step(s: Seq<u8>, begin: int, eof: bool) -> TokenStep {
    match first_from(s, begin, false) {
        None => if eof {
            TokenStep::Exhausted
        } else {
            TokenStep::NeedMore
        },
        Some(i) => match first_from(s, i + 1, true) {
            Some(j) => TokenStep::Token(i as usize, j as usize),
            None => if eof {
                TokenStep::Token(i as usize, s.len() as usize)
            } else {
                TokenStep::NeedMore
            },
        },
    }
}

/// Where the next token of `buf` at or after `begin` lies, or that more input is needed, or
/// that there is none when `eof` says no more input will come.
pub fn next_token_span(buf: &[u8], begin: usize, eof: bool) -> (r: TokenStep)
    ensures
        r == token_step(buf@, begin as int, eof),
{
    let n = buf.len();
    match first_from_exec(buf, begin, false) {
        None => if eof {
            TokenStep::Exhausted
        } else {
            TokenStep::NeedMore
        },
        Some(i) => {
            proof {
                lemma_first_bounds(buf@, begin as int, false);
            }
            match first_from_exec(buf, i + 1, true) {
                Some(j) => TokenStep::Token(i, j),
                None => if eof {
                    TokenStep::Token(i, n)
                } else {
                    TokenStep::NeedMore
                },
            }
        },
    }
}

proof fn lemma_first_bounds(s: Seq<u8>, begin: int, space: bool)
    ensures
        first_from(s, begin, space) is Some ==> {
            let i = first_from(s, begin, space)->Some_0;
            begin <= i < s.len() && is_space(s[i]) == space
        },
    decreases s.len() - begin,
{
    if begin < s.len() && is_space(s[begin]) != space {
        lemma_first_bounds(s, begin + 1, space);
    }
}

/// Where the next line lies, or what is needed to know it.
pub enum LineStep {
    /// The line, with its line feed if it has one, occupies `[start, end)`.
    Line(usize, usize),
    /// The buffer ends before the line is known to end: read more input first.
    NeedMore,
    /// The input holds no further line.
    Exhausted,
}

/// The first position at or after `begin` holding a line feed, if any.
pub open spec fn first_newline(s: Seq<u8>, begin: int) -> Option<int>
    decreases s.len() - begin,
{
    if begin >= s.len() {
        None
    } else if s[begin] == 0x0a {
        Some(begin)
    } else {
        first_newline(s, begin + 1)
    }
}

/// Where the next line of `buf` at `begin` lies: up to and including the next line feed, or
/// to the end of the input when `eof` says no more will come.
pub fn next_line_span(buf: &[u8], begin: usize, eof: bool) -> (r: LineStep)
    requires
        begin <= buf@.len(),
    ensures
        match first_newline(buf@, begin as int) {
            Some(j) => r == LineStep::Line(begin, (j + 1) as usize),
            None => if !eof {
                r == LineStep::NeedMore
            } else if begin == buf@.len() {
                r == LineStep::Exhausted
            } else {
                r == LineStep::Line(begin, buf@.len() as usize)
            },
        },
{
    let mut i = begin;
    while i < buf.len()
        invariant
            begin <= i <= buf@.len(),
            first_newline(buf@, begin as int) == first_newline(buf@, i as int),
        decreases buf@.len() - i,
    {
        if buf[i] == 0x0a {
            return LineStep::Line(begin, i + 1);
        }
        i = i + 1;
    }
    if !eof {
        LineStep::NeedMore
    } else if begin == buf.len() {
        LineStep::Exhausted
    } else {
        LineStep::Line(begin, buf.len())
    }
}

/// `b` with ASCII upper-case letters made lower case.
pub open spec fn lower(b: u8) -> u8 {
    if 0x41 <= b <= 0x5a {
        (b + 0x20) as u8
    } else {
        b
    }
}

/// `t` spells `word` (lower case) with any mix of ASCII letter case.
pub open spec fn spells(t: Seq<u8>, word: Seq<u8>) -> bool {
    t.len() == word.len() && forall|i: int| 0 <= i < t.len() ==> lower(#[trigger] t[i]) == word[i]
}

fn spells_exec(t: &[u8], word: &[u8]) -> (r: bool)
    ensures
        r == spells(t@, word@),
{
    if t.len() != word.len() {
        return false;
    }
    let mut i: usize = 0;
    while i < t.len()
        invariant
            t@.len() == word@.len(),
            i <= t@.len(),
            forall|k: int| 0 <= k < i ==> lower(#[trigger] t@[k]) == word@[k],
        decreases t@.len() - i,
    {
        let b = t[i];
        let l: u8 = if 0x41 <= b && b <= 0x5a {
            b + 0x20
        } else {
            b
        };
        if l != word[i] {
            return false;
        }
        i = i + 1;
    }
    true
}

/// The value of a token read as a `bool`: `true` or `1`, `false` or `0`, letters in any case;
/// `None` for any other token.
pub fn parse_bool(token: &[u8]) -> (r: Option<bool>)
    ensures
        r == Some(true) <==> (spells(token@, seq![0x74u8, 0x72, 0x75, 0x65]) || token@ == seq![0x31u8]),
        r == Some(false) <==> (spells(token@, seq![0x66u8, 0x61, 0x6c, 0x73, 0x65]) || token@ == seq![0x30u8]),
{
    let t: [u8; 4] = [0x74, 0x72, 0x75, 0x65];
    let f: [u8; 5] = [0x66, 0x61, 0x6c, 0x73, 0x65];
    if spells_exec(token, t.as_slice()) {
        proof {
            assert(t@ =~= seq![0x74u8, 0x72, 0x75, 0x65]);
        }
        Some(true)
    } else if token.len() == 1 && token[0] == 0x31 {
        proof {
            assert(token@ =~= seq![0x31u8]);
            assert(t@ =~= seq![0x74u8, 0x72, 0x75, 0x65]);
        }
        Some(true)
    } else if spells_exec(token, f.as_slice()) {
        proof {
            assert(f@ =~= seq![0x66u8, 0x61, 0x6c, 0x73, 0x65]);
            assert(t@ =~= seq![0x74u8, 0x72, 0x75, 0x65]);
        }
        Some(false)
    } else if token.len() == 1 && token[0] == 0x30 {
        proof {
            assert(token@ =~= seq![0x30u8]);
            assert(t@ =~= seq![0x74u8, 0x72, 0x75, 0x65]);
            assert(f@ =~= seq![0x66u8, 0x61, 0x6c, 0x73, 0x65]);
        }
        Some(false)
    } else {
        proof {
            assert(t@ =~= seq![0x74u8, 0x72, 0x75, 0x65]);
            assert(f@ =~= seq![0x66u8, 0x61, 0x6c, 0x73, 0x65]);
            if token@ == seq![0x31u8] {
                assert(token@[0] == 0x31);
            }
            if token@ == seq![0x30u8] {
                assert(token@[0] == 0x30);
            }
        }
        None
    }
}

/// Length of a line without its line ending: a final line feed goes, and a carriage return
/// right before it goes too.
pub fn line_content_len(line: &[u8]) -> (r: usize)
    ensures
        r == line_content_len_spec(line@),
{
    let n = line.len();
    if n >= 1 && line[n - 1] == 0x0a {
        if n >= 2 && line[n - 2] == 0x0d {
            n - 2
        } else {
            n - 1
        }
    } else {
        n
    }
}

/// What a scanner hands out: an item, or that more input is needed first, or that the input
/// holds no further item.
pub enum Scanned {
    Item(Vec<u8>),
    NeedMore,
    Exhausted,
}

/// The input of a scanner not consumed yet, and whether the end of the input has been seen.
pub struct ScanBuffer {
    buf: Vec<u8>,
    pos: usize,
    eof: bool,
}

impl ScanBuffer {
    /// The bytes held: some already consumed, then the pending ones.
    pub closed spec fn buffer(&self) -> Seq<u8> {
        self.buf@
    }

    /// Where the pending input starts in the buffer.
    pub closed spec fn cursor(&self) -> int {
        self.pos as int
    }

    /// The bytes not consumed yet.
    pub open spec fn pending(&self) -> Seq<u8> {
        self.buffer().skip(self.cursor())
    }

    /// Whether no more input will come.
    pub closed spec fn at_eof(&self) -> bool {
        self.eof
    }

    pub closed spec fn wf(&self) -> bool {
        self.pos <= self.buf@.len()
    }

    /// A scanner with no input yet.
    pub fn new() -> (r: Self)
        ensures
            r.wf(),
            r.pending() == Seq::<u8>::empty(),
            !r.at_eof(),
    {
        let r = ScanBuffer { buf: Vec::new(), pos: 0, eof: false };
        assert(r.pending() =~= Seq::<u8>::empty());
        r
    }

    /// Appends `data` to the input. The bytes already consumed are dropped first when they
    /// make up more than half the buffer.
    pub fn push_input(&mut self, data: &[u8])
        requires
            old(self).wf(),
        ensures
            final(self).wf(),
            final(self).pending() == old(self).pending() + data@,
            final(self).at_eof() == old(self).at_eof(),
    {
        if self.pos > self.buf.len() / 2 {
            let mut kept: Vec<u8> = Vec::new();
            let mut i = self.pos;
            while i < self.buf.len()
                invariant
                    self.pos <= i <= self.buf@.len(),
                    kept@ == self.buf@.subrange(self.pos as int, i as int),
                decreases self.buf@.len() - i,
            {
                kept.push(self.buf[i]);
                i = i + 1;
                assert(kept@ =~= self.buf@.subrange(self.pos as int, i as int));
            }
            self.buf = kept;
            self.pos = 0;
            assert(self.pending() =~= old(self).pending());
        }
        let ghost mid = self.pending();
        let mut k: usize = 0;
        while k < data.len()
            invariant
                self.pos <= self.buf@.len(),
                self.eof == old(self).eof,
                k <= data@.len(),
                self.pending() == mid + data@.subrange(0, k as int),
            decreases data@.len() - k,
        {
            let ghost before = self.buf@;
            self.buf.push(data[k]);
            proof {
                assert(self.buf@.skip(self.pos as int) =~= before.skip(self.pos as int).push(data@[k as int]));
                assert(data@.subrange(0, k + 1) =~= data@.subrange(0, k as int).push(data@[k as int]));
            }
            k = k + 1;
        }
        assert(data@.subrange(0, k as int) =~= data@);
    }

    /// Records that no more input will come.
    pub fn set_eof(&mut self)
        ensures
            final(self).buffer() == old(self).buffer(),
            final(self).cursor() == old(self).cursor(),
            final(self).at_eof(),
            old(self).wf() ==> final(self).wf(),
    {
        self.eof = true;
    }

    /// Where the next token lies in the buffer, without consuming anything.
    pub fn peek_token(&self) -> (r: TokenStep)
        requires
            self.wf(),
        ensures
            r == token_step(self.buffer(), self.cursor(), self.at_eof()),
    {
        next_token_span(self.buf.as_slice(), self.pos, self.eof)
    }

    /// Takes the next token, consuming the input up to its end; or says that more input is
    /// needed first, or that there is none.
    pub fn next_token(&mut self) -> (r: Scanned)
        requires
            old(self).wf(),
        ensures
            final(self).wf(),
            final(self).at_eof() == old(self).at_eof(),
            match token_step(old(self).buffer(), old(self).cursor(), old(self).at_eof()) {
                TokenStep::Token(a, b) => r is Item && r->Item_0@ == old(self).buffer().subrange(
                    a as int,
                    b as int,
                ) && final(self).pending() == old(self).buffer().skip(b as int),
                TokenStep::NeedMore => r is NeedMore && final(self).pending() == old(self).pending(),
                TokenStep::Exhausted => r is Exhausted && final(self).pending() == old(self).pending(),
            },
    {
        let _held = self.buf.len();
        match self.peek_token() {
            TokenStep::Token(i, j) => {
                proof {
                    lemma_first_bounds(self.buf@, self.pos as int, false);
                    let fi = first_from(self.buf@, self.pos as int, false)->Some_0;
                    lemma_first_bounds(self.buf@, fi + 1, true);
                }
                let item = self.copy_range(i, j);
                self.pos = j;
                Scanned::Item(item)
            },
            TokenStep::NeedMore => Scanned::NeedMore,
            TokenStep::Exhausted => Scanned::Exhausted,
        }
    }

    /// Where the next line lies in the buffer, without consuming anything.
    pub fn peek_line(&self) -> (r: LineStep)
        requires
            self.wf(),
        ensures
            match first_newline(self.buffer(), self.cursor()) {
                Some(j) => r == LineStep::Line(self.cursor() as usize, (j + 1) as usize),
                None => if !self.at_eof() {
                    r == LineStep::NeedMore
                } else if self.cursor() == self.buffer().len() {
                    r == LineStep::Exhausted
                } else {
                    r == LineStep::Line(self.cursor() as usize, self.buffer().len() as usize)
                },
            },
    {
        next_line_span(self.buf.as_slice(), self.pos, self.eof)
    }

    /// Number of bytes held.
    pub fn held(&self) -> (r: usize)
        ensures
            r == self.buffer().len(),
    {
        self.buf.len()
    }

    /// The held bytes in `[i, j)`.
    pub fn bytes(&self, i: usize, j: usize) -> (r: Vec<u8>)
        requires
            i <= j <= self.buffer().len(),
        ensures
            r@ == self.buffer().subrange(i as int, j as int),
    {
        self.copy_range(i, j)
    }

    /// Consumes the input up to position `j` of the buffer.
    pub fn consume_to(&mut self, j: usize)
        requires
            old(self).wf(),
            old(self).cursor() <= j <= old(self).buffer().len(),
        ensures
            final(self).wf(),
            final(self).at_eof() == old(self).at_eof(),
            final(self).pending() == old(self).buffer().skip(j as int),
    {
        self.pos = j;
    }

    fn copy_range(&self, i: usize, j: usize) -> (r: Vec<u8>)
        requires
            i <= j <= self.buf@.len(),
        ensures
            r@ == self.buf@.subrange(i as int, j as int),
    {
        let mut r: Vec<u8> = Vec::new();
        let mut k = i;
        while k < j
            invariant
                i <= k <= j <= self.buf@.len(),
                r@ == self.buf@.subrange(i as int, k as int),
            decreases j - k,
        {
            r.push(self.buf[k]);
            k = k + 1;
            assert(r@ =~= self.buf@.subrange(i as int, k as int));
        }
        r
    }

    /// Takes the next line without its line ending, consuming the input through its line feed;
    /// or says that more input is needed first, or that there is none.
    pub fn next_line(&mut self) -> (r: Scanned)
        requires
            old(self).wf(),
        ensures
            final(self).wf(),
            final(self).at_eof() == old(self).at_eof(),
            match first_newline(old(self).buffer(), old(self).cursor()) {
                Some(j) => r is Item && final(self).pending() == old(self).buffer().skip(j + 1)
                    && r->Item_0@ == old(self).buffer().subrange(
                    old(self).cursor(),
                    old(self).cursor() + line_content_len_spec(
                        old(self).buffer().subrange(old(self).cursor(), j + 1),
                    ),
                ),
                None => if !old(self).at_eof() {
                    r is NeedMore && final(self).pending() == old(self).pending()
                } else if old(self).pending().len() == 0 {
                    r is Exhausted && final(self).pending() == old(self).pending()
                } else {
                    r is Item && final(self).pending().len() == 0 && r->Item_0@ == old(
                        self,
                    ).pending()
                },
            },
    {
        let _held = self.buf.len();
        match next_line_span(self.buf.as_slice(), self.pos, self.eof) {
            LineStep::Line(b, e) => {
                proof {
                    lemma_first_newline_bound(self.buf@, b as int);
                }
                let full = self.copy_range(b, e);
                let m = line_content_len(full.as_slice());
                let mut item: Vec<u8> = Vec::new();
                let mut k: usize = 0;
                while k < m
                    invariant
                        k <= m <= full@.len(),
                        item@ == full@.subrange(0, k as int),
                    decreases m - k,
                {
                    item.push(full[k]);
                    k = k + 1;
                    assert(item@ =~= full@.subrange(0, k as int));
                }
                proof {
                    assert(item@ =~= self.buf@.subrange(b as int, b + m));
                    if first_newline(self.buf@, b as int) is None {
                        assert(full@.last() != 0x0a) by {
                            assert(full@ =~= self.buf@.skip(b as int));
                            lemma_no_newline(self.buf@, b as int, self.buf@.len() - 1);
                        }
                        assert(item@ =~= self.buf@.skip(b as int));
                    }
                }
                self.pos = e;
                Scanned::Item(item)
            },
            LineStep::NeedMore => Scanned::NeedMore,
            LineStep::Exhausted => {
                proof {
                    assert(self.pending().len() == 0);
                }
                Scanned::Exhausted
            },
        }
    }
}

/// Length of `line` without its line ending, as `line_content_len` computes it.
pub open spec fn line_content_len_spec(line: Seq<u8>) -> int {
    if line.len() >= 1 && line.last() == 0x0a {
        if line.len() >= 2 && line[line.len() - 2] == 0x0d {
            line.len() - 2
        } else {
            line.len() - 1
        }
    } else {
        line.len() as int
    }
}

proof fn lemma_no_newline(s: Seq<u8>, begin: int, k: int)
    requires
        0 <= begin <= k < s.len(),
        first_newline(s, begin) is None,
    ensures
        s[k] != 0x0a,
    decreases k - begin,
{
    if begin < k {
        lemma_no_newline(s, begin + 1, k);
    }
}

proof fn lemma_first_newline_bound(s: Seq<u8>, begin: int)
    ensures
        first_newline(s, begin) is Some ==> {
            let j = first_newline(s, begin)->Some_0;
            begin <= j < s.len() && s[j] == 0x0a
        },
    decreases s.len() - begin,
{
    if begin < s.len() && s[begin] != 0x0a {
        lemma_first_newline_bound(s, begin + 1);
    }
}

} // verus!
