//! HTML: the tokenizer that turns a page into start tags, end tags, text,
//! comments and the doctype, one character at a time; parsing a page into
//! its DOM tree; and the text listings of tokens and nodes.
use vstd::prelude::*;

pub use crate::dom_tree::DOMNode;
use crate::dom_tree::{DOMNodeView, create_DOM_tree, dom_run, dom_view, strings_view};
use crate::text::{
    chars_of, decimal, push_decimal, push_str, spec_uppercase, starts_with, str_to_uppercase,
    string_of,
};

pub use crate::dom_tree::{NodeContent, NodeType};

verus! {

/// Kinds of token the tokenizer emits.
#[derive(PartialEq, Eq, Structural, Clone, Copy, Debug)]
pub enum TokenType {
    Unknown,
    Doctype,
    StratTag,
    EndTag,
    Comment,
    Text,
    EndOfFile,
}

impl Default for TokenType {
    fn default() -> (r: Self)
        ensures
            r == TokenType::Unknown,
    {
        TokenType::Unknown
    }
}

/// One token: its kind, its tag name, its text and its attributes
/// (name, value), in the order they appeared.
pub struct Token {
    pub token_type: TokenType,
    pub tag_name: String,
    pub token_data: String,
    pub tag_attribute: Vec<(String, String)>,
}

/// The mathematical value of a token.
#[verifier::ext_equal]
pub struct TokenView {
    pub token_type: TokenType,
    pub tag_name: Seq<char>,
    pub token_data: Seq<char>,
    pub tag_attribute: Seq<(Seq<char>, Seq<char>)>,
}

pub open spec fn attrs_view(a: Seq<(String, String)>) -> Seq<(Seq<char>, Seq<char>)> {
    a.map_values(|p: (String, String)| (p.0@, p.1@))
}

impl View for Token {
    type V = TokenView;

    open spec fn view(&self) -> TokenView {
        TokenView {
            token_type: self.token_type,
            tag_name: self.tag_name@,
            token_data: self.token_data@,
            tag_attribute: attrs_view(self.tag_attribute@),
        }
    }
}

pub open spec fn tokens_view(v: Seq<Token>) -> Seq<TokenView> {
    v.map_values(|t: Token| t@)
}

/// A copy of a list of attributes.
pub(crate) fn clone_attrs(a: &Vec<(String, String)>) -> (r: Vec<(String, String)>)
    ensures
        attrs_view(r@) == attrs_view(a@),
{
    let mut r: Vec<(String, String)> = Vec::new();
    let mut i: usize = 0;
    while i < a.len()
        invariant
            i <= a.len(),
            r.len() == i,
            attrs_view(r@) == attrs_view(a@).take(i as int),
        decreases a.len() - i,
    {
        let p = (a[i].0.clone(), a[i].1.clone());
        let ghost r0 = r@;
        r.push(p);
        i = i + 1;
        assert(r@ == r0.push(p));
        assert(p.0@ == a@[i - 1].0@ && p.1@ == a@[i - 1].1@);
        assert forall|k: int| 0 <= k < i implies #[trigger] attrs_view(r@)[k] == attrs_view(a@)[k] by {
            if k < i - 1 {
                assert(attrs_view(r0)[k] == attrs_view(a@).take(i - 1)[k]);
            }
        }
        assert(attrs_view(r@) =~= attrs_view(a@).take(i as int));
    }
    assert(attrs_view(a@).take(a.len() as int) =~= attrs_view(a@));
    r
}

impl Clone for Token {
    fn clone(&self) -> (r: Self)
        ensures
            r@ == self@,
    {
        Token {
            token_type: self.token_type,
            tag_name: self.tag_name.clone(),
            token_data: self.token_data.clone(),
            tag_attribute: clone_attrs(&self.tag_attribute),
        }
    }
}

/// States of the tokenizer.
#[derive(PartialEq, Eq, Structural, Clone, Copy, Debug)]
pub enum TokenizeState {
    Data,
    TagOpen,
    TagName,
    TagAttribute,
    EndTagOpen,
}

/// The whole state of the tokenizer between two characters.
#[verifier::ext_equal]
pub struct TokState {
    pub state: TokenizeState,
    pub current: TokenView,
    pub tokens: Seq<TokenView>,
    pub after_open: bool,
    pub attr_value: bool,
    pub dashes: int,
    pub tmp: Seq<char>,
    pub tmp_attr: (Seq<char>, Seq<char>),
    pub prev_space: bool,
    /// The tokenizer has given up: a comment closed by `-->` right after its
    /// `<!--` has no body to cut out, or a run of `-` in a tag is longer
    /// than an `i32` can count.
    pub failed: bool,
}

pub open spec fn empty_token() -> TokenView {
    TokenView {
        token_type: TokenType::Unknown,
        tag_name: Seq::empty(),
        token_data: Seq::empty(),
        tag_attribute: Seq::empty(),
    }
}

pub open spec fn eof_token() -> TokenView {
    TokenView {
        token_type: TokenType::EndOfFile,
        tag_name: Seq::empty(),
        token_data: Seq::empty(),
        tag_attribute: Seq::empty(),
    }
}

pub open spec fn lit_text() -> Seq<char> {
    seq!['t', 'e', 'x', 't']
}

pub open spec fn lit_doctype() -> Seq<char> {
    seq!['d', 'o', 'c', 't', 'y', 'p', 'e']
}

pub open spec fn lit_comment() -> Seq<char> {
    seq!['c', 'o', 'm', 'm', 'e', 'n', 't']
}

pub open spec fn lit_bang_doctype() -> Seq<char> {
    seq!['!', 'D', 'O', 'C', 'T', 'Y', 'P', 'E']
}

pub open spec fn lit_bang_dash_dash() -> Seq<char> {
    seq!['!', '-', '-']
}

pub open spec fn initial_tok_state() -> TokState {
    TokState {
        state: TokenizeState::Data,
        current: empty_token(),
        tokens: Seq::empty(),
        after_open: false,
        attr_value: false,
        dashes: 0,
        tmp: Seq::empty(),
        tmp_attr: (Seq::empty(), Seq::empty()),
        prev_space: false,
        failed: false,
    }
}

/// Reading `c` in the `Data` state; the flag says whether the token ends.
pub open spec fn tok_data(s: TokState, c: char) -> (TokState, bool) {
    if c == '<' {
        (TokState { state: TokenizeState::TagOpen, after_open: false, ..s }, true)
    } else if s.after_open {
        let cur = if s.current.token_type != TokenType::Text {
            TokenView { tag_name: lit_text(), token_type: TokenType::Text, ..s.current }
        } else {
            s.current
        };
        (TokState { current: TokenView { token_data: cur.token_data.push(c), ..cur }, ..s }, false)
    } else {
        (s, false)
    }
}

/// Reading `c` in the `TagOpen` state.
pub open spec fn tok_tag_open(s: TokState, c: char) -> (TokState, bool) {
    if c == '/' {
        (TokState { state: TokenizeState::EndTagOpen, ..s }, false)
    } else {
        (TokState {
            state: TokenizeState::TagName,
            after_open: true,
            current: TokenView {
                token_type: TokenType::StratTag,
                tag_name: s.current.tag_name.push(c),
                ..s.current
            },
            ..s
        }, false)
    }
}

/// The tag name is a comment, `<!--` so far.
pub open spec fn is_comment_tag(t: TokenView) -> bool {
    (t.token_type == TokenType::StratTag && starts_with(t.tag_name, lit_bang_dash_dash()))
        || t.token_type == TokenType::Comment
}

/// A comment can be closed: after its `!--` come at least two characters,
/// and the last two are `-`.
pub open spec fn comment_closable(t: Seq<char>) -> bool {
    t.len() >= 5 && t[t.len() - 1] == '-' && t[t.len() - 2] == '-'
}

/// Reading `>` in the `TagName` state.
pub open spec fn tok_tag_name_close(s: TokState) -> (TokState, bool) {
    let cur = s.current;
    if cur.token_type == TokenType::StratTag && starts_with(
        spec_uppercase(cur.tag_name),
        lit_bang_doctype(),
    ) {
        (TokState {
            state: TokenizeState::Data,
            current: TokenView { tag_name: lit_doctype(), token_type: TokenType::Doctype, ..cur },
            ..s
        }, true)
    } else if is_comment_tag(cur) {
        if s.dashes == 2 {
            if comment_closable(cur.tag_name) {
                (TokState {
                    state: TokenizeState::Data,
                    current: TokenView {
                        token_data: cur.tag_name.subrange(3, cur.tag_name.len() - 2),
                        tag_name: lit_comment(),
                        token_type: TokenType::Comment,
                        ..cur
                    },
                    ..s
                }, true)
            } else {
                (TokState { failed: true, ..s }, false)
            }
        } else {
            (TokState {
                current: TokenView {
                    tag_name: cur.tag_name.push('>'),
                    token_type: TokenType::Comment,
                    ..cur
                },
                ..s
            }, false)
        }
    } else {
        (TokState { state: TokenizeState::Data, ..s }, true)
    }
}

/// Reading a space in the `TagName` state.
pub open spec fn tok_tag_name_space(s: TokState) -> TokState {
    let cur = s.current;
    if !starts_with(cur.tag_name, lit_bang_dash_dash()) && cur.token_type != TokenType::Comment {
        if starts_with(spec_uppercase(cur.tag_name), lit_bang_doctype()) {
            TokState {
                current: TokenView {
                    tag_name: lit_doctype(),
                    token_type: TokenType::Doctype,
                    ..cur
                },
                ..s
            }
        } else {
            TokState {
                state: TokenizeState::TagAttribute,
                attr_value: false,
                tmp: Seq::empty(),
                tmp_attr: (Seq::empty(), Seq::empty()),
                ..s
            }
        }
    } else {
        TokState { current: TokenView { tag_name: cur.tag_name.push(' '), ..cur }, ..s }
    }
}

/// Reading `c` in the `TagName` state. The count of `-` in a row is an
/// `i32`; the tokenizer gives up where it would overflow.
pub open spec fn tok_tag_name(s: TokState, c: char) -> (TokState, bool) {
    if c == '-' && s.dashes >= i32::MAX {
        (TokState { failed: true, ..s }, false)
    } else {
        tok_tag_name_counted(s, c)
    }
}

pub open spec fn tok_tag_name_counted(s: TokState, c: char) -> (TokState, bool) {
    let (s1, end) = if c == '>' {
        tok_tag_name_close(s)
    } else if c == ' ' {
        (tok_tag_name_space(s), false)
    } else if s.current.token_type == TokenType::Doctype {
        (s, false)
    } else {
        (TokState {
            current: TokenView { tag_name: s.current.tag_name.push(c), ..s.current },
            ..s
        }, false)
    };
    (TokState { dashes: if c == '-' { s.dashes + 1 } else { 0 }, ..s1 }, end)
}

/// Reading `c` in the `TagAttribute` state.
pub open spec fn tok_tag_attr(s: TokState, c: char) -> (TokState, bool) {
    if c == '>' {
        (TokState {
            state: TokenizeState::Data,
            attr_value: false,
            tmp: Seq::empty(),
            tmp_attr: (Seq::empty(), Seq::empty()),
            ..s
        }, true)
    } else if c == '"' {
        if s.attr_value {
            (TokState {
                current: TokenView {
                    tag_attribute: s.current.tag_attribute.push((s.tmp_attr.0, s.tmp)),
                    ..s.current
                },
                tmp_attr: (Seq::empty(), Seq::empty()),
                tmp: Seq::empty(),
                attr_value: false,
                ..s
            }, false)
        } else {
            (TokState { attr_value: true, ..s }, false)
        }
    } else if c == '=' && !s.attr_value {
        (TokState { tmp_attr: (s.tmp, s.tmp_attr.1), tmp: Seq::empty(), ..s }, false)
    } else if c == ' ' && !s.attr_value {
        if s.tmp.len() > 0 {
            (TokState {
                current: TokenView {
                    tag_attribute: s.current.tag_attribute.push((s.tmp, s.tmp_attr.1)),
                    ..s.current
                },
                tmp_attr: (Seq::empty(), Seq::empty()),
                tmp: Seq::empty(),
                ..s
            }, false)
        } else {
            (s, false)
        }
    } else {
        (TokState { tmp: s.tmp.push(c), ..s }, false)
    }
}

/// Reading `c` in the `EndTagOpen` state.
pub open spec fn tok_end_tag_open(s: TokState, c: char) -> (TokState, bool) {
    (TokState {
        state: TokenizeState::TagName,
        current: TokenView {
            token_type: TokenType::EndTag,
            tag_name: s.current.tag_name.push(c),
            ..s.current
        },
        ..s
    }, false)
}

/// When a token ends, it is emitted unless both its name and its text are
/// empty, and a fresh token begins.
pub open spec fn tok_flush(s: TokState, end: bool) -> TokState {
    if end && (s.current.tag_name.len() > 0 || s.current.token_data.len() > 0) {
        TokState { tokens: s.tokens.push(s.current), current: empty_token(), ..s }
    } else {
        s
    }
}

/// A line break reads as a space.
pub open spec fn normalize_char(c: char) -> char {
    if c == '\n' { ' ' } else { c }
}

/// One character of input. A space right after a space is skipped.
pub open spec fn tok_step(s: TokState, raw: char) -> TokState {
    let c = normalize_char(raw);
    if s.failed || (c == ' ' && s.prev_space) {
        s
    } else {
        let s0 = TokState { prev_space: c == ' ', ..s };
        let (s1, end) = match s0.state {
            TokenizeState::Data => tok_data(s0, c),
            TokenizeState::TagOpen => tok_tag_open(s0, c),
            TokenizeState::TagName => tok_tag_name(s0, c),
            TokenizeState::TagAttribute => tok_tag_attr(s0, c),
            TokenizeState::EndTagOpen => tok_end_tag_open(s0, c),
        };
        if s1.failed { s1 } else { tok_flush(s1, end) }
    }
}

/// The tokenizer after reading all of `input`.
pub open spec fn tok_run(input: Seq<char>) -> TokState
    decreases input.len(),
{
    if input.len() == 0 {
        initial_tok_state()
    } else {
        tok_step(tok_run(input.drop_last()), input.last())
    }
}

/// The tokens of a page, ending with an end-of-file token; `None` where the
/// tokenizer gives up.
pub open spec fn spec_tokenize(input: Seq<char>) -> Option<Seq<TokenView>> {
    let s = tok_run(input);
    if s.failed {
        None
    } else {
        Some(s.tokens.push(eof_token()))
    }
}

/// The working state of the tokenizer.
struct Tokenizer {
    state: TokenizeState,
    cur_type: TokenType,
    cur_name: Vec<char>,
    cur_data: Vec<char>,
    cur_attrs: Vec<(String, String)>,
    tokens: Vec<Token>,
    after_open: bool,
    attr_value: bool,
    dashes: i32,
    tmp: Vec<char>,
    tmp_name: Vec<char>,
    tmp_value: Vec<char>,
    prev_space: bool,
}

impl View for Tokenizer {
    type V = TokState;

    closed spec fn view(&self) -> TokState {
        TokState {
            state: self.state,
            current: TokenView {
                token_type: self.cur_type,
                tag_name: self.cur_name@,
                token_data: self.cur_data@,
                tag_attribute: attrs_view(self.cur_attrs@),
            },
            tokens: tokens_view(self.tokens@),
            after_open: self.after_open,
            attr_value: self.attr_value,
            dashes: self.dashes as int,
            tmp: self.tmp@,
            tmp_attr: (self.tmp_name@, self.tmp_value@),
            prev_space: self.prev_space,
            failed: false,
        }
    }
}

/// `v` begins with `!--`.
fn has_bang_dash_dash(v: &Vec<char>) -> (r: bool)
    ensures
        r == starts_with(v@, lit_bang_dash_dash()),
{
    if v.len() >= 3 && v[0] == '!' && v[1] == '-' && v[2] == '-' {
        assert(v@.take(3) =~= lit_bang_dash_dash());
        true
    } else {
        assert(v@.len() >= 3 ==> v@.take(3)[0] == v@[0] && v@.take(3)[1] == v@[1] && v@.take(3)[2] == v@[2]);
        false
    }
}

/// The upper-case form of `v` begins with `!DOCTYPE`.
fn upper_has_bang_doctype(v: &Vec<char>) -> (r: bool)
    ensures
        r == starts_with(spec_uppercase(v@), lit_bang_doctype()),
{
    let s = string_of(v);
    let up = str_to_uppercase(s.as_str());
    let u = chars_of(up.as_str());
    let ghost p = lit_bang_doctype();
    if u.len() >= 8 && u[0] == '!' && u[1] == 'D' && u[2] == 'O' && u[3] == 'C' && u[4] == 'T'
        && u[5] == 'Y' && u[6] == 'P' && u[7] == 'E' {
        assert(u@.take(8) =~= p);
        true
    } else {
        assert(u@.len() >= 8 ==> u@.take(8)[0] == u@[0] && u@.take(8)[1] == u@[1] && u@.take(8)[2]
            == u@[2] && u@.take(8)[3] == u@[3] && u@.take(8)[4] == u@[4] && u@.take(8)[5] == u@[5]
            && u@.take(8)[6] == u@[6] && u@.take(8)[7] == u@[7]);
        false
    }
}

fn lit_vec_text() -> (v: Vec<char>)
    ensures
        v@ == lit_text(),
{
    let v = vec!['t', 'e', 'x', 't'];
    assert(v@ =~= lit_text());
    v
}

fn lit_vec_doctype() -> (v: Vec<char>)
    ensures
        v@ == lit_doctype(),
{
    let v = vec!['d', 'o', 'c', 't', 'y', 'p', 'e'];
    assert(v@ =~= lit_doctype());
    v
}

fn lit_vec_comment() -> (v: Vec<char>)
    ensures
        v@ == lit_comment(),
{
    let v = vec!['c', 'o', 'm', 'm', 'e', 'n', 't'];
    assert(v@ =~= lit_comment());
    v
}

/// Moves the contents out of `v`, leaving it empty.
fn take_vec<T>(v: &mut Vec<T>) -> (r: Vec<T>)
    ensures
        r@ == old(v)@,
        final(v)@ == Seq::<T>::empty(),
{
    let mut r: Vec<T> = Vec::new();
    std::mem::swap(&mut r, v);
    r
}

/// The characters of `v` from `lo` up to `hi`.
fn sub_vec(v: &Vec<char>, lo: usize, hi: usize) -> (r: Vec<char>)
    requires
        lo <= hi <= v.len(),
    ensures
        r@ == v@.subrange(lo as int, hi as int),
{
    let mut r: Vec<char> = Vec::new();
    let mut i = lo;
    while i < hi
        invariant
            lo <= i <= hi <= v.len(),
            r@ == v@.subrange(lo as int, i as int),
        decreases hi - i,
    {
        r.push(v[i]);
        i = i + 1;
        assert(r@ =~= v@.subrange(lo as int, i as int));
    }
    r
}

impl Tokenizer {
    fn new() -> (t: Tokenizer)
        ensures
            t@ == initial_tok_state(),
    {
        let t = Tokenizer {
            state: TokenizeState::Data,
            cur_type: TokenType::Unknown,
            cur_name: Vec::new(),
            cur_data: Vec::new(),
            cur_attrs: Vec::new(),
            tokens: Vec::new(),
            after_open: false,
            attr_value: false,
            dashes: 0,
            tmp: Vec::new(),
            tmp_name: Vec::new(),
            tmp_value: Vec::new(),
            prev_space: false,
        };
        assert(attrs_view(t.cur_attrs@) =~= Seq::empty());
        assert(tokens_view(t.tokens@) =~= Seq::empty());
        t
    }

    fn data(&mut self, c: char) -> (end: bool)
        ensures
            final(self)@ == tok_data(old(self)@, c).0,
            end == tok_data(old(self)@, c).1,
    {
        if c == '<' {
            self.state = TokenizeState::TagOpen;
            self.after_open = false;
            true
        } else if self.after_open {
            if self.cur_type != TokenType::Text {
                self.cur_name = lit_vec_text();
                self.cur_type = TokenType::Text;
            }
            self.cur_data.push(c);
            false
        } else {
            false
        }
    }

    fn tag_open(&mut self, c: char) -> (end: bool)
        ensures
            final(self)@ == tok_tag_open(old(self)@, c).0,
            end == tok_tag_open(old(self)@, c).1,
    {
        if c == '/' {
            self.state = TokenizeState::EndTagOpen;
        } else {
            self.cur_type = TokenType::StratTag;
            self.after_open = true;
            self.state = TokenizeState::TagName;
            self.cur_name.push(c);
        }
        false
    }

    fn end_tag_open(&mut self, c: char) -> (end: bool)
        ensures
            final(self)@ == tok_end_tag_open(old(self)@, c).0,
            end == tok_end_tag_open(old(self)@, c).1,
    {
        self.cur_type = TokenType::EndTag;
        self.state = TokenizeState::TagName;
        self.cur_name.push(c);
        false
    }

    /// Returns `None` where the tokenizer gives up.
    fn tag_name_close(&mut self) -> (end: Option<bool>)
        ensures
            end is None <==> tok_tag_name_close(old(self)@).0.failed,
            end matches Some(e) ==> final(self)@ == tok_tag_name_close(old(self)@).0 && e
                == tok_tag_name_close(old(self)@).1,
            final(self).dashes == old(self).dashes,
    {
        if self.cur_type == TokenType::StratTag && upper_has_bang_doctype(&self.cur_name) {
            self.state = TokenizeState::Data;
            self.cur_name = lit_vec_doctype();
            self.cur_type = TokenType::Doctype;
            Some(true)
        } else if (self.cur_type == TokenType::StratTag && has_bang_dash_dash(&self.cur_name))
            || self.cur_type == TokenType::Comment {
            if self.dashes == 2 {
                let n = self.cur_name.len();
                if n >= 5 && self.cur_name[n - 1] == '-' && self.cur_name[n - 2] == '-' {
                    self.state = TokenizeState::Data;
                    self.cur_data = sub_vec(&self.cur_name, 3, n - 2);
                    self.cur_name = lit_vec_comment();
                    self.cur_type = TokenType::Comment;
                    Some(true)
                } else {
                    None
                }
            } else {
                self.cur_name.push('>');
                self.cur_type = TokenType::Comment;
                Some(false)
            }
        } else {
            self.state = TokenizeState::Data;
            Some(true)
        }
    }

    fn tag_name_space(&mut self)
        ensures
            final(self)@ == tok_tag_name_space(old(self)@),
            final(self).dashes == old(self).dashes,
    {
        if !has_bang_dash_dash(&self.cur_name) && self.cur_type != TokenType::Comment {
            if upper_has_bang_doctype(&self.cur_name) {
                self.cur_name = lit_vec_doctype();
                self.cur_type = TokenType::Doctype;
            } else {
                self.state = TokenizeState::TagAttribute;
                self.attr_value = false;
                self.tmp = Vec::new();
                self.tmp_name = Vec::new();
                self.tmp_value = Vec::new();
            }
        } else {
            self.cur_name.push(' ');
        }
    }

    fn tag_name(&mut self, c: char) -> (end: Option<bool>)
        requires
            0 <= old(self).dashes,
        ensures
            end is None <==> tok_tag_name(old(self)@, c).0.failed,
            end matches Some(e) ==> final(self)@ == tok_tag_name(old(self)@, c).0 && e
                == tok_tag_name(old(self)@, c).1,
            0 <= final(self).dashes <= old(self).dashes + 1,
    {
        if c == '-' && self.dashes == i32::MAX {
            return None;
        }
        let end = if c == '>' {
            self.tag_name_close()
        } else if c == ' ' {
            self.tag_name_space();
            Some(false)
        } else if self.cur_type == TokenType::Doctype {
            Some(false)
        } else {
            self.cur_name.push(c);
            Some(false)
        };
        if c == '-' {
            self.dashes = self.dashes + 1;
        } else {
            self.dashes = 0;
        }
        end
    }

    fn push_attr(&mut self, name: &Vec<char>, value: &Vec<char>)
        ensures
            final(self)@ == (TokState {
                current: TokenView {
                    tag_attribute: old(self)@.current.tag_attribute.push((name@, value@)),
                    ..old(self)@.current
                },
                ..old(self)@
            }),
    {
        let ghost a0 = self.cur_attrs@;
        let p = (string_of(name), string_of(value));
        self.cur_attrs.push(p);
        assert(attrs_view(self.cur_attrs@) =~= attrs_view(a0).push((name@, value@)));
    }

    fn tag_attr(&mut self, c: char) -> (end: bool)
        ensures
            final(self)@ == tok_tag_attr(old(self)@, c).0,
            end == tok_tag_attr(old(self)@, c).1,
    {
        if c == '>' {
            self.state = TokenizeState::Data;
            self.attr_value = false;
            self.tmp = Vec::new();
            self.tmp_name = Vec::new();
            self.tmp_value = Vec::new();
            true
        } else if c == '"' {
            if self.attr_value {
                let name = take_vec(&mut self.tmp_name);
                let value = take_vec(&mut self.tmp);
                self.push_attr(&name, &value);
                self.tmp_value = Vec::new();
                self.attr_value = false;
            } else {
                self.attr_value = true;
            }
            false
        } else if c == '=' && !self.attr_value {
            self.tmp_name = take_vec(&mut self.tmp);
            false
        } else if c == ' ' && !self.attr_value {
            if self.tmp.len() > 0 {
                let name = take_vec(&mut self.tmp);
                let value = take_vec(&mut self.tmp_value);
                self.push_attr(&name, &value);
                self.tmp_name = Vec::new();
            }
            false
        } else {
            self.tmp.push(c);
            false
        }
    }

    fn flush(&mut self, end: bool)
        ensures
            final(self)@ == tok_flush(old(self)@, end),
    {
        if end && (self.cur_name.len() > 0 || self.cur_data.len() > 0) {
            let ghost cur = self@.current;
            let ghost toks = self.tokens@;
            let name = take_vec(&mut self.cur_name);
            let data = take_vec(&mut self.cur_data);
            let attrs = take_vec(&mut self.cur_attrs);
            let t = Token {
                token_type: self.cur_type,
                tag_name: string_of(&name),
                token_data: string_of(&data),
                tag_attribute: attrs,
            };
            assert(t@ == cur);
            self.tokens.push(t);
            self.cur_type = TokenType::Unknown;
            assert(tokens_view(self.tokens@) =~= tokens_view(toks).push(cur));
            assert(attrs_view(self.cur_attrs@) =~= Seq::empty());
        }
    }

    /// Reads one character; `false` where the tokenizer gives up.
    fn step(&mut self, raw: char) -> (ok: bool)
        requires
            0 <= old(self).dashes,
        ensures
            ok == !tok_step(old(self)@, raw).failed,
            ok ==> final(self)@ == tok_step(old(self)@, raw),
            0 <= final(self).dashes,
    {
        let c = if raw == '\n' { ' ' } else { raw };
        if c == ' ' && self.prev_space {
            return true;
        }
        self.prev_space = c == ' ';
        let end = match self.state {
            TokenizeState::Data => self.data(c),
            TokenizeState::TagOpen => self.tag_open(c),
            TokenizeState::TagName => {
                match self.tag_name(c) {
                    Some(e) => e,
                    None => return false,
                }
            },
            TokenizeState::TagAttribute => self.tag_attr(c),
            TokenizeState::EndTagOpen => self.end_tag_open(c),
        };
        self.flush(end);
        true
    }
}


/// Once the tokenizer has given up on a prefix, it gives up on the whole input.
proof fn lemma_failed_sticky(input: Seq<char>, j: int)
    requires
        0 <= j <= input.len(),
        tok_run(input.take(j)).failed,
    ensures
        tok_run(input).failed,
    decreases input.len() - j,
{
    if j < input.len() {
        assert(input.take(j + 1).drop_last() == input.take(j));
        lemma_failed_sticky(input, j + 1);
    } else {
        assert(input.take(j) == input);
    }
}

/// Runs the tokenizer over all of `html`; `None` where it gives up.
fn run_tokenizer(html: &String) -> (r: Option<Vec<Token>>)
    ensures
        r is None <==> spec_tokenize(html@) is None,
        r matches Some(v) ==> spec_tokenize(html@) == Some(tokens_view(v@)),
{
    let chars = chars_of(html.as_str());
    let mut t = Tokenizer::new();
    let mut i: usize = 0;
    assert(chars@.take(0) =~= Seq::<char>::empty());
    while i < chars.len()
        invariant
            chars@ == html@,
            i <= chars.len(),
            t@ == tok_run(chars@.take(i as int)),
            0 <= t.dashes,
        decreases chars.len() - i,
    {
        let ghost before = t@;
        let ok = t.step(chars[i]);
        assert(chars@.take(i + 1).drop_last() == chars@.take(i as int));
        assert(chars@.take(i + 1).last() == chars@[i as int]);
        if !ok {
            proof {
                lemma_failed_sticky(chars@, i + 1);
            }
            return None;
        }
        i = i + 1;
    }
    assert(chars@.take(chars.len() as int) == chars@);
    let ghost toks = t.tokens@;
    let eof = Token {
        token_type: TokenType::EndOfFile,
        tag_name: String::new(),
        token_data: String::new(),
        tag_attribute: Vec::new(),
    };
    assert(eof@ =~= eof_token());
    let mut tokens = t.tokens;
    tokens.push(eof);
    assert(tokens_view(tokens@) =~= tokens_view(toks).push(eof_token()));
    Some(tokens)
}

/// The tokens of a page, in order, ending with one end-of-file token.
pub fn tokenize(html: &String) -> (tokens: Vec<Token>)
    requires
        spec_tokenize(html@) is Some,
    ensures
        spec_tokenize(html@) == Some(tokens_view(tokens@)),
{
    match run_tokenizer(html) {
        Some(v) => v,
        None => Vec::new(),
    }
}

/// The tokens of a page, or `None` where the tokenizer gives up (a comment
/// written `<!-->`, or a run of `-` in a tag longer than an `i32` counts).
pub fn try_tokenize(html: &String) -> (r: Option<Vec<Token>>)
    ensures
        r is None <==> spec_tokenize(html@) is None,
        r matches Some(v) ==> spec_tokenize(html@) == Some(tokens_view(v@)),
{
    run_tokenizer(html)
}


/// The DOM tree and the stylesheet links of a page.
pub open spec fn spec_parse_html(tokens: Seq<TokenView>) -> (Seq<DOMNodeView>, Seq<Seq<char>>) {
    let st = dom_run(tokens);
    (st.tree, st.links)
}

/// Parses a page into its DOM tree (nodes linked by index) and the links of
/// the stylesheets its head names.
pub fn parse_html(html: &String) -> (r: (Vec<DOMNode>, Vec<String>))
    requires
        spec_tokenize(html@) is Some,
    ensures
        (dom_view(r.0@), strings_view(r.1@)) == spec_parse_html(spec_tokenize(html@).unwrap()),
{
    let tokens: Vec<Token> = tokenize(html);
    create_DOM_tree(tokens)
}

/// Parses a page, or returns `None` where the tokenizer gives up (a comment
/// written `<!-->`, or a run of `-` in a tag longer than an `i32` counts).
pub fn try_parse_html(html: &String) -> (r: Option<(Vec<DOMNode>, Vec<String>)>)
    ensures
        r is None <==> spec_tokenize(html@) is None,
        r matches Some(p) ==> (dom_view(p.0@), strings_view(p.1@)) == spec_parse_html(
            spec_tokenize(html@).unwrap(),
        ),
{
    match try_tokenize(html) {
        None => None,
        Some(_) => Some(parse_html(html)),
    }
}


/// The name under which a token type is shown.
pub open spec fn token_type_name(t: TokenType) -> Seq<char> {
    match t {
        TokenType::Unknown => "Unknown"@,
        TokenType::Doctype => "Doctype"@,
        TokenType::StratTag => "StratTag"@,
        TokenType::EndTag => "EndTag"@,
        TokenType::Comment => "Comment"@,
        TokenType::Text => "Text"@,
        TokenType::EndOfFile => "EndOfFile"@,
    }
}

/// The name of a token type.
pub fn convert_tokentype_to_string(token_type: TokenType) -> (result: String)
    ensures
        result@ == token_type_name(token_type),
{
    let result: String = match token_type {
        TokenType::Unknown => String::from_str("Unknown"),
        TokenType::Doctype => String::from_str("Doctype"),
        TokenType::StratTag => String::from_str("StratTag"),
        TokenType::EndTag => String::from_str("EndTag"),
        TokenType::Comment => String::from_str("Comment"),
        TokenType::Text => String::from_str("Text"),
        TokenType::EndOfFile => String::from_str("EndOfFile"),
    };
    result
}

/// The listing of a token's attributes: ` [type: NAME,  data: VALUE] ` each.
pub open spec fn attrs_text(a: Seq<(Seq<char>, Seq<char>)>) -> Seq<char>
    decreases a.len(),
{
    if a.len() == 0 {
        Seq::empty()
    } else {
        attrs_text(a.drop_last()) + " ["@ + "type: "@ + a.last().0 + ",  data: "@ + a.last().1 + "] "@
    }
}

/// The line listing token number `i`.
pub open spec fn token_line(i: nat, t: TokenView) -> Seq<char> {
    decimal(i) + ":   "@ + "TokenType-> "@ + token_type_name(t.token_type) + "   TagName-> "@
        + t.tag_name + "   TagAttributes-> "@ + attrs_text(t.tag_attribute) + "   TokenData-> "@
        + t.token_data + "\n"@
}

/// The listing of a sequence of tokens, one line each, numbered from 0.
pub open spec fn tokens_text(ts: Seq<TokenView>) -> Seq<char>
    decreases ts.len(),
{
    if ts.len() == 0 {
        Seq::empty()
    } else {
        tokens_text(ts.drop_last()) + token_line((ts.len() - 1) as nat, ts.last())
    }
}

/// Appends the line listing token number `count`.
fn push_token_line(result: &mut String, count: usize, t: &Token)
    ensures
        final(result)@ == old(result)@ + token_line(count as nat, t@),
{
    let ghost r0 = result@;
    push_decimal(result, count);
    push_str(result, ":   ");
    push_str(result, "TokenType-> ");
    let name = convert_tokentype_to_string(t.token_type);
    push_str(result, name.as_str());
    push_str(result, "   TagName-> ");
    push_str(result, t.tag_name.as_str());
    push_str(result, "   TagAttributes-> ");
    let ghost r1 = result@;
    let ghost av = attrs_view(t.tag_attribute@);
    let mut j: usize = 0;
    assert(av.take(0) =~= Seq::<(Seq<char>, Seq<char>)>::empty());
    while j < t.tag_attribute.len()
        invariant
            av == attrs_view(t.tag_attribute@),
            j <= t.tag_attribute.len(),
            result@ == r1 + attrs_text(av.take(j as int)),
        decreases t.tag_attribute.len() - j,
    {
        push_str(result, " [");
        push_str(result, "type: ");
        push_str(result, t.tag_attribute[j].0.as_str());
        push_str(result, ",  data: ");
        push_str(result, t.tag_attribute[j].1.as_str());
        push_str(result, "] ");
        assert(av.take(j + 1).drop_last() =~= av.take(j as int));
        j = j + 1;
        assert(result@ =~= r1 + attrs_text(av.take(j as int)));
    }
    assert(av.take(j as int) =~= av);
    push_str(result, "   TokenData-> ");
    push_str(result, t.token_data.as_str());
    push_str(result, "\n");
    assert(result@ =~= r0 + token_line(count as nat, t@));
}

/// A listing of the tokens, one line each.
pub fn print_token(tokens: Vec<Token>) -> (result: String)
    requires
        tokens@.len() <= i32::MAX,
    ensures
        result@ == tokens_text(tokens_view(tokens@)),
{
    let ghost tv = tokens_view(tokens@);
    let mut result = String::new();
    let mut count: i32 = 0;
    let mut i: usize = 0;
    assert(tv.take(0) =~= Seq::<TokenView>::empty());
    while i < tokens.len()
        invariant
            tv == tokens_view(tokens@),
            tokens@.len() <= i32::MAX,
            i <= tokens.len(),
            count == i,
            result@ == tokens_text(tv.take(i as int)),
        decreases tokens.len() - i,
    {
        push_token_line(&mut result, count as usize, &tokens[i]);
        assert(tv.take(i + 1).drop_last() =~= tv.take(i as int));
        count += 1;
        i = i + 1;
    }
    assert(tv.take(i as int) =~= tv);
    result
}

/// The listing of a node's children: `INDEX, ` each.
pub open spec fn children_text(c: Seq<usize>) -> Seq<char>
    decreases c.len(),
{
    if c.len() == 0 {
        Seq::empty()
    } else {
        children_text(c.drop_last()) + decimal(c.last() as nat) + ", "@
    }
}

/// The description of one node.
pub open spec fn dom_node_text(n: DOMNodeView) -> Seq<char> {
    "\n"@ + "\n"@ + "PARENT "@ + "[ "@ + "index: "@ + decimal(n.this_node_idx as nat) + ", "@
        + "name: "@ + n.node_name + ", "@ + "value: "@ + n.node_value + " ]"@ + "\n"@
        + "CHILD_COUNT: "@ + decimal(n.child_nodes_idx.len()) + "\n"@ + "CHILDS  "@ + "[ "@
        + children_text(n.child_nodes_idx) + " ]"@
}

/// The description of all nodes, in order.
pub open spec fn dom_text(tree: Seq<DOMNodeView>) -> Seq<char>
    decreases tree.len(),
{
    if tree.len() == 0 {
        Seq::empty()
    } else {
        dom_text(tree.drop_last()) + dom_node_text(tree.last())
    }
}

/// Every node's index fits in an `i32`.
pub open spec fn indices_fit_i32(tree: Seq<DOMNodeView>) -> bool {
    forall|i: int| 0 <= i < tree.len() ==> #[trigger] tree[i].this_node_idx <= i32::MAX
}

/// Appends the description of one node.
fn push_node_text(result: &mut String, n: &DOMNode)
    ensures
        final(result)@ == old(result)@ + dom_node_text(n@),
{
    let ghost r0 = result@;
    push_str(result, "\n");
    push_str(result, "\n");
    push_str(result, "PARENT ");
    push_str(result, "[ ");
    push_str(result, "index: ");
    push_decimal(result, n.this_node_idx);
    push_str(result, ", ");
    push_str(result, "name: ");
    push_str(result, n.node_content.node_name.as_str());
    push_str(result, ", ");
    push_str(result, "value: ");
    push_str(result, n.node_content.node_value.as_str());
    push_str(result, " ]");
    push_str(result, "\n");
    push_str(result, "CHILD_COUNT: ");
    push_decimal(result, n.child_nodes_idx.len());
    push_str(result, "\n");
    push_str(result, "CHILDS  ");
    push_str(result, "[ ");
    let ghost r1 = result@;
    let mut j: usize = 0;
    assert(n.child_nodes_idx@.take(0) =~= Seq::<usize>::empty());
    while j < n.child_nodes_idx.len()
        invariant
            j <= n.child_nodes_idx.len(),
            result@ == r1 + children_text(n.child_nodes_idx@.take(j as int)),
        decreases n.child_nodes_idx.len() - j,
    {
        push_decimal(result, n.child_nodes_idx[j]);
        push_str(result, ", ");
        assert(n.child_nodes_idx@.take(j + 1).drop_last() =~= n.child_nodes_idx@.take(j as int));
        j = j + 1;
        assert(result@ =~= r1 + children_text(n.child_nodes_idx@.take(j as int)));
    }
    assert(n.child_nodes_idx@.take(j as int) =~= n.child_nodes_idx@);
    push_str(result, " ]");
    assert(result@ =~= r0 + dom_node_text(n@));
}

/// Appends a description of every node of the tree to `result`.
pub fn print_dom_node(tree: &Vec<DOMNode>, result: &mut String)
    requires
        indices_fit_i32(dom_view(tree@)),
    ensures
        final(result)@ == old(result)@ + dom_text(dom_view(tree@)),
{
    let ghost tv = dom_view(tree@);
    let ghost r_start = result@;
    let mut i: usize = 0;
    assert(tv.take(0) =~= Seq::<DOMNodeView>::empty());
    while i < tree.len()
        invariant
            tv == dom_view(tree@),
            indices_fit_i32(tv),
            i <= tree.len(),
            result@ == r_start + dom_text(tv.take(i as int)),
        decreases tree.len() - i,
    {
        assert(tv[i as int].this_node_idx <= i32::MAX);
        let ghost r0 = result@;
        push_node_text(result, &tree[i]);
        assert(tv.take(i + 1).drop_last() =~= tv.take(i as int));
        assert(result@ =~= r0 + dom_node_text(tv[i as int]));
        i = i + 1;
        assert(result@ =~= r_start + dom_text(tv.take(i as int)));
    }
    assert(tv.take(i as int) =~= tv);
}


/// One index per line.
pub open spec fn index_lines(c: Seq<usize>) -> Seq<char>
    decreases c.len(),
{
    if c.len() == 0 {
        Seq::empty()
    } else {
        index_lines(c.drop_last()) + decimal(c.last() as nat) + "\n"@
    }
}

/// The lines printed for one node: its index, then its children or a note
/// that it has none.
pub open spec fn dom_vec_node_text(n: DOMNodeView) -> Seq<char> {
    decimal(n.this_node_idx as nat) + "\n"@ + ": \n"@ + "\n"@ + if n.child_nodes_idx.len() > 0 {
        "childs\n"@ + "\n"@ + index_lines(n.child_nodes_idx)
    } else {
        "NO child\n"@ + "\n"@
    }
}

pub open spec fn dom_vec_text(tree: Seq<DOMNodeView>) -> Seq<char>
    decreases tree.len(),
{
    if tree.len() == 0 {
        Seq::empty()
    } else {
        dom_vec_text(tree.drop_last()) + dom_vec_node_text(tree.last())
    }
}

/// Every node's index and child indices fit in an `i32`.
pub open spec fn links_fit_i32(tree: Seq<DOMNodeView>) -> bool {
    forall|i: int|
        0 <= i < tree.len() ==> #[trigger] tree[i].this_node_idx <= i32::MAX && forall|k: int|
            0 <= k < tree[i].child_nodes_idx.len() ==> #[trigger] tree[i].child_nodes_idx[k]
                <= i32::MAX
}

fn push_dom_vec_node(result: &mut String, n: &DOMNode)
    ensures
        final(result)@ == old(result)@ + dom_vec_node_text(n@),
{
    let ghost r0 = result@;
    push_decimal(result, n.this_node_idx);
    push_str(result, "\n");
    push_str(result, ": \n");
    push_str(result, "\n");
    if n.child_nodes_idx.len() > 0 {
        push_str(result, "childs\n");
        push_str(result, "\n");
        let ghost r1 = result@;
        let mut j: usize = 0;
        assert(n.child_nodes_idx@.take(0) =~= Seq::<usize>::empty());
        while j < n.child_nodes_idx.len()
            invariant
                j <= n.child_nodes_idx.len(),
                result@ == r1 + index_lines(n.child_nodes_idx@.take(j as int)),
            decreases n.child_nodes_idx.len() - j,
        {
            push_decimal(result, n.child_nodes_idx[j]);
            push_str(result, "\n");
            assert(n.child_nodes_idx@.take(j + 1).drop_last() =~= n.child_nodes_idx@.take(j as int));
            j = j + 1;
            assert(result@ =~= r1 + index_lines(n.child_nodes_idx@.take(j as int)));
        }
        assert(n.child_nodes_idx@.take(j as int) =~= n.child_nodes_idx@);
    } else {
        push_str(result, "NO child\n");
        push_str(result, "\n");
    }
    assert(result@ =~= r0 + dom_vec_node_text(n@));
}

/// The text that listing the nodes prints: each node's index and its
/// children's indices, one per line.
pub fn print_dom_vec_text(tree: &Vec<DOMNode>) -> (result: String)
    requires
        links_fit_i32(dom_view(tree@)),
    ensures
        result@ == dom_vec_text(dom_view(tree@)),
{
    let ghost tv = dom_view(tree@);
    let mut result = String::new();
    let mut i: usize = 0;
    assert(tv.take(0) =~= Seq::<DOMNodeView>::empty());
    while i < tree.len()
        invariant
            tv == dom_view(tree@),
            i <= tree.len(),
            result@ == dom_vec_text(tv.take(i as int)),
        decreases tree.len() - i,
    {
        push_dom_vec_node(&mut result, &tree[i]);
        assert(tv.take(i + 1).drop_last() =~= tv.take(i as int));
        i = i + 1;
    }
    assert(tv.take(i as int) =~= tv);
    result
}


/// What every token before the end-of-file token is like: never an
/// end-of-file or unknown token, never empty in both name and text, and
/// named `text`, `comment` or `doctype` when it is text, a comment or the
/// doctype.
pub open spec fn emitted_token_ok(t: TokenView) -> bool {
    &&& t.token_type != TokenType::EndOfFile
    &&& t.token_type != TokenType::Unknown
    &&& (t.tag_name.len() > 0 || t.token_data.len() > 0)
    &&& (t.token_type == TokenType::Text ==> t.tag_name == lit_text())
    &&& (t.token_type == TokenType::Comment ==> t.tag_name == lit_comment())
    &&& (t.token_type == TokenType::Doctype ==> t.tag_name == lit_doctype())
}

pub open spec fn tokens_ok(ts: Seq<TokenView>) -> bool {
    forall|i: int| 0 <= i < ts.len() ==> #[trigger] emitted_token_ok(ts[i])
}

/// A token being named inside a tag.
pub open spec fn named_ok(c: TokenView) -> bool {
    &&& c.tag_name.len() > 0
    &&& (c.token_type == TokenType::StratTag || c.token_type == TokenType::EndTag
        || c.token_type == TokenType::Comment || c.token_type == TokenType::Doctype)
    &&& (c.token_type == TokenType::Doctype ==> c.tag_name == lit_doctype())
}

/// What holds of the tokenizer between two characters.
pub open spec fn tok_inv(st: TokState) -> bool {
    &&& tokens_ok(st.tokens)
    &&& match st.state {
        TokenizeState::Data => st.current == empty_token() || (st.current.token_type
            == TokenType::Text && st.current.tag_name == lit_text()
            && st.current.token_data.len() > 0),
        TokenizeState::TagOpen => st.current == empty_token(),
        TokenizeState::EndTagOpen => st.current == empty_token(),
        TokenizeState::TagName => named_ok(st.current),
        TokenizeState::TagAttribute => named_ok(st.current) && st.current.token_type
            != TokenType::Comment,
    }
}

/// The state after a step, before the finished token (if any) is emitted.
pub open spec fn pre_flush_ok(st: TokState, end: bool) -> bool {
    &&& tokens_ok(st.tokens)
    &&& if end {
        (st.current == empty_token() || emitted_token_ok(st.current)) && (st.state
            == TokenizeState::Data || st.state == TokenizeState::TagOpen)
    } else {
        tok_inv(st)
    }
}

proof fn lemma_flush_ok(st: TokState, end: bool)
    requires
        pre_flush_ok(st, end),
    ensures
        tok_inv(tok_flush(st, end)),
{
    if end {
        let f = tok_flush(st, end);
        if st.current.tag_name.len() > 0 || st.current.token_data.len() > 0 {
            assert forall|i: int| 0 <= i < f.tokens.len() implies #[trigger] emitted_token_ok(f.tokens[i]) by {
                if i < st.tokens.len() {
                    assert(f.tokens[i] == st.tokens[i]);
                }
            }
        } else {
            assert(st.current.tag_name =~= Seq::<char>::empty());
            assert(st.current.token_data =~= Seq::<char>::empty());
            assert(st.current == empty_token() || emitted_token_ok(st.current));
            if st.current != empty_token() {
                assert(false);
            }
        }
    }
}

proof fn lemma_tag_name_step_ok(s: TokState, c: char)
    requires
        tok_inv(s),
        s.state == TokenizeState::TagName,
        !tok_tag_name(s, c).0.failed,
    ensures
        pre_flush_ok(tok_tag_name(s, c).0, tok_tag_name(s, c).1),
{
    let cur = s.current;
    assert(lit_doctype()[0] == 'd');
    if cur.tag_name == lit_doctype() {
        assert(!starts_with(cur.tag_name, lit_bang_dash_dash())) by {
            assert(cur.tag_name.take(3)[0] == 'd');
        }
    }
    assert(lit_comment().len() > 0);
}

proof fn lemma_tok_step_ok(s: TokState, raw: char)
    requires
        tok_inv(s),
        !tok_step(s, raw).failed,
    ensures
        tok_inv(tok_step(s, raw)),
{
    let c = normalize_char(raw);
    if !(s.failed || (c == ' ' && s.prev_space)) {
        let s0 = TokState { prev_space: c == ' ', ..s };
        assert(lit_text().len() > 0);
        match s0.state {
            TokenizeState::Data => {
                let (s1, end) = tok_data(s0, c);
                assert(pre_flush_ok(s1, end));
                lemma_flush_ok(s1, end);
            },
            TokenizeState::TagOpen => {
                let (s1, end) = tok_tag_open(s0, c);
                assert(pre_flush_ok(s1, end));
                lemma_flush_ok(s1, end);
            },
            TokenizeState::TagName => {
                lemma_tag_name_step_ok(s0, c);
                let (s1, end) = tok_tag_name(s0, c);
                lemma_flush_ok(s1, end);
            },
            TokenizeState::TagAttribute => {
                let (s1, end) = tok_tag_attr(s0, c);
                assert(pre_flush_ok(s1, end));
                lemma_flush_ok(s1, end);
            },
            TokenizeState::EndTagOpen => {
                let (s1, end) = tok_end_tag_open(s0, c);
                assert(pre_flush_ok(s1, end));
                lemma_flush_ok(s1, end);
            },
        }
    }
}

proof fn lemma_tok_run_ok(input: Seq<char>)
    ensures
        tok_run(input).failed || tok_inv(tok_run(input)),
    decreases input.len(),
{
    if input.len() > 0 {
        lemma_tok_run_ok(input.drop_last());
        let s = tok_run(input.drop_last());
        if !s.failed && !tok_step(s, input.last()).failed {
            lemma_tok_step_ok(s, input.last());
        }
    } else {
        assert(empty_token() == initial_tok_state().current);
    }
}

/// The tokens of a page end with one end-of-file token, and no other token
/// is an end-of-file or unknown token or is empty in both name and text;
/// text, comments and the doctype are named `text`, `comment` and `doctype`.
pub proof fn law_tokens_well_formed(input: Seq<char>)
    requires
        spec_tokenize(input) is Some,
    ensures
        spec_tokenize(input).unwrap().len() >= 1,
        spec_tokenize(input).unwrap().last() == eof_token(),
        tokens_ok(spec_tokenize(input).unwrap().drop_last()),
{
    lemma_tok_run_ok(input);
    let ts = spec_tokenize(input).unwrap();
    assert(ts.drop_last() =~= tok_run(input).tokens);
}

/// A character of a plain tag name: no line break, space, `>` or `-`.
pub open spec fn tag_name_char(c: char) -> bool {
    c != '\n' && c != ' ' && c != '>' && c != '-'
}

/// A character of a plain attribute name: no line break, space, `>`, `"` or `=`.
pub open spec fn attr_name_char(c: char) -> bool {
    c != '\n' && c != ' ' && c != '>' && c != '"' && c != '='
}

/// Text that can stand between the quotes of an attribute value as it is:
/// no line break, `"` or `>`, and no two spaces in a row.
pub open spec fn quoted_value_text(v: Seq<char>) -> bool {
    &&& forall|i: int| 0 <= i < v.len() ==> #[trigger] v[i] != '\n' && v[i] != '"' && v[i] != '>'
    &&& forall|i: int| 0 < i < v.len() ==> !(v[i - 1] == ' ' && #[trigger] v[i] == ' ')
}

proof fn lemma_tok_tag_name_text(a: Seq<char>, w: Seq<char>)
    requires
        tok_run(a).state == TokenizeState::TagName,
        !tok_run(a).failed,
        !tok_run(a).prev_space,
        tok_run(a).dashes == 0,
        tok_run(a).current.token_type == TokenType::StratTag,
        forall|i: int| 0 <= i < w.len() ==> tag_name_char(#[trigger] w[i]),
    ensures
        tok_run(a + w) == (TokState {
            current: TokenView { tag_name: tok_run(a).current.tag_name + w, ..tok_run(a).current },
            ..tok_run(a)
        }),
    decreases w.len(),
{
    if w.len() == 0 {
        assert(a + w =~= a);
        assert(tok_run(a).current.tag_name + w =~= tok_run(a).current.tag_name);
    } else {
        lemma_tok_tag_name_text(a, w.drop_last());
        assert((a + w).drop_last() =~= a + w.drop_last());
        assert((a + w).last() == w.last());
        assert(tag_name_char(w[w.len() - 1]));
        assert(tok_run(a).current.tag_name + w =~= (tok_run(a).current.tag_name
            + w.drop_last()).push(w.last()));
    }
}

proof fn lemma_tok_attr_name_text(a: Seq<char>, w: Seq<char>)
    requires
        tok_run(a).state == TokenizeState::TagAttribute,
        !tok_run(a).failed,
        !tok_run(a).attr_value,
        forall|i: int| 0 <= i < w.len() ==> attr_name_char(#[trigger] w[i]),
    ensures
        tok_run(a + w) == (TokState {
            tmp: tok_run(a).tmp + w,
            prev_space: if w.len() > 0 { false } else { tok_run(a).prev_space },
            ..tok_run(a)
        }),
    decreases w.len(),
{
    if w.len() == 0 {
        assert(a + w =~= a);
        assert(tok_run(a).tmp + w =~= tok_run(a).tmp);
    } else {
        lemma_tok_attr_name_text(a, w.drop_last());
        assert((a + w).drop_last() =~= a + w.drop_last());
        assert((a + w).last() == w.last());
        assert(attr_name_char(w[w.len() - 1]));
        assert(tok_run(a).tmp + w =~= (tok_run(a).tmp + w.drop_last()).push(w.last()));
    }
}

proof fn lemma_tok_quoted_text(a: Seq<char>, w: Seq<char>)
    requires
        tok_run(a).state == TokenizeState::TagAttribute,
        !tok_run(a).failed,
        tok_run(a).attr_value,
        quoted_value_text(w),
        w.len() > 0 && tok_run(a).prev_space ==> w[0] != ' ',
    ensures
        tok_run(a + w) == (TokState {
            tmp: tok_run(a).tmp + w,
            prev_space: if w.len() > 0 { w.last() == ' ' } else { tok_run(a).prev_space },
            ..tok_run(a)
        }),
    decreases w.len(),
{
    if w.len() == 0 {
        assert(a + w =~= a);
        assert(tok_run(a).tmp + w =~= tok_run(a).tmp);
    } else {
        let w0 = w.drop_last();
        assert(quoted_value_text(w0)) by {
            assert forall|i: int| 0 <= i < w0.len() implies #[trigger] w0[i] != '\n' && w0[i] != '"'
                && w0[i] != '>' by {
                assert(w0[i] == w[i]);
            }
            assert forall|i: int| 0 < i < w0.len() implies !(w0[i - 1] == ' ' && #[trigger] w0[i]
                == ' ') by {
                assert(w0[i] == w[i] && w0[i - 1] == w[i - 1]);
            }
        }
        lemma_tok_quoted_text(a, w0);
        assert((a + w).drop_last() =~= a + w0);
        assert((a + w).last() == w.last());
        let k = w.len() - 1;
        assert(w[k] != '\n' && w[k] != '"' && w[k] != '>');
        if k > 0 {
            assert(!(w[k - 1] == ' ' && w[k] == ' '));
            assert(w0.last() == w[k - 1]);
        }
        assert(tok_run(a).tmp + w =~= (tok_run(a).tmp + w0).push(w.last()));
    }
}

/// Inside a quoted attribute value every character up to the closing quote
/// belongs to the value, `=` and spaces included: the page `<t n="v">`
/// (with a plain tag name `t` that is not a doctype, a plain attribute name
/// `n`, and a value `v` with no `"` or `>` and no two spaces in a row) is one
/// start tag named `t` whose one attribute is `(n, v)`.
pub proof fn law_quoted_attribute_value(t: Seq<char>, n: Seq<char>, v: Seq<char>)
    requires
        t.len() > 0,
        t[0] != '/',
        forall|i: int| 0 <= i < t.len() ==> tag_name_char(#[trigger] t[i]),
        !starts_with(spec_uppercase(t), lit_bang_doctype()),
        n.len() > 0,
        forall|i: int| 0 <= i < n.len() ==> attr_name_char(#[trigger] n[i]),
        quoted_value_text(v),
    ensures
        spec_tokenize(seq!['<'] + t + seq![' '] + n + seq!['=', '"'] + v + seq!['"', '>']) == Some(
            seq![
                TokenView {
                    token_type: TokenType::StratTag,
                    tag_name: t,
                    token_data: Seq::empty(),
                    tag_attribute: seq![(n, v)],
                },
                eof_token(),
            ],
        ),
{
    let a1 = seq!['<'];
    assert(a1.drop_last() =~= Seq::<char>::empty());
    assert(tok_run(Seq::<char>::empty()) == initial_tok_state());
    assert(a1.last() == '<');
    let s1 = tok_run(a1);
    assert(s1 == tok_step(initial_tok_state(), '<'));
    assert(s1 =~= TokState { state: TokenizeState::TagOpen, ..initial_tok_state() });
    let a2 = a1.push(t[0]);
    assert(a2.drop_last() =~= a1);
    assert(tag_name_char(t[0]));
    let s2 = tok_run(a2);
    assert(s2.current.tag_name =~= seq![t[0]]);
    assert(s2.state == TokenizeState::TagName && !s2.failed && !s2.prev_space && s2.dashes == 0);
    let rest = t.drop_first();
    assert forall|i: int| 0 <= i < rest.len() implies tag_name_char(#[trigger] rest[i]) by {
        assert(rest[i] == t[i + 1]);
    }
    lemma_tok_tag_name_text(a2, rest);
    let a3 = a2 + rest;
    assert(a3 =~= a1 + t);
    let s3 = tok_run(a3);
    assert(s3.current.tag_name =~= t);
    let a4 = a3.push(' ');
    assert(a4.drop_last() =~= a3);
    assert(!starts_with(t, lit_bang_dash_dash())) by {
        if starts_with(t, lit_bang_dash_dash()) {
            assert(t.take(3)[1] == t[1]);
            assert(tag_name_char(t[1]));
        }
    }
    let s4 = tok_run(a4);
    assert(s4.state == TokenizeState::TagAttribute && !s4.attr_value && !s4.failed);
    assert(s4.tmp =~= Seq::<char>::empty());
    assert(s4.current == s3.current);
    lemma_tok_attr_name_text(a4, n);
    let a5 = a4 + n;
    let s5 = tok_run(a5);
    assert(Seq::<char>::empty() + n =~= n);
    assert(s5.tmp == n && !s5.prev_space);
    let a6 = a5.push('=');
    assert(a6.drop_last() =~= a5);
    let s6 = tok_run(a6);
    assert(s6.tmp_attr.0 == n && s6.tmp =~= Seq::<char>::empty());
    let a7 = a6.push('"');
    assert(a7.drop_last() =~= a6);
    let s7 = tok_run(a7);
    assert(s7.attr_value && !s7.prev_space && s7.state == TokenizeState::TagAttribute);
    lemma_tok_quoted_text(a7, v);
    let a8 = a7 + v;
    let s8 = tok_run(a8);
    assert(Seq::<char>::empty() + v =~= v);
    assert(s8.tmp == v && s8.tmp_attr.0 == n && s8.attr_value);
    let a9 = a8.push('"');
    assert(a9.drop_last() =~= a8);
    let s9 = tok_run(a9);
    assert(s9.current.tag_attribute =~= seq![(n, v)]);
    assert(s9.current.tag_name == t && s9.current.token_type == TokenType::StratTag);
    assert(s9.current.token_data =~= Seq::<char>::empty());
    let a10 = a9.push('>');
    assert(a10.drop_last() =~= a9);
    let s10 = tok_run(a10);
    assert(s10.tokens =~= seq![s9.current]);
    let page = seq!['<'] + t + seq![' '] + n + seq!['=', '"'] + v + seq!['"', '>'];
    assert(page =~= a10);
    assert(s10.tokens.push(eof_token()) =~= seq![s9.current, eof_token()]);
}

} // verus!
