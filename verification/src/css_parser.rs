//! CSS: selectors split into their parts, and stylesheets split into rules
//! of selectors and declarations.
use vstd::prelude::*;

use crate::text::{chars_of, starts_with, string_of};

verus! {

/// Kinds of selector part, by the character that introduces them.
#[derive(PartialEq, Eq, Structural, Clone, Copy, Debug)]
pub enum SelectorType {
    Element,
    Id,  // #
    Class,  //.
    Universal,  // *
    Attribute,  // []
    Colon,  // :
    Desendants,  // " "
    Child,  // >
    NextSibiling,  // +
    SubsequentSibling,  // ~
    Pseudo,  // ::
    Column,  // ||
}

/// The name under which a selector type is shown.
pub open spec fn selector_type_name(t: SelectorType) -> Seq<char> {
    match t {
        SelectorType::Element => seq!['E', 'l', 'e', 'm', 'e', 'n', 't'],
        SelectorType::Id => seq!['I', 'd'],
        SelectorType::Class => seq!['C', 'l', 'a', 's', 's'],
        SelectorType::Universal => seq!['U', 'n', 'i', 'v', 'e', 'r', 's', 'a', 'l'],
        SelectorType::Attribute => seq!['A', 't', 't', 'r', 'i', 'b', 'u', 't', 'e'],
        SelectorType::Colon => seq!['C', 'o', 'l', 'o', 'n'],
        SelectorType::Desendants => seq!['D', 'e', 's', 'e', 'n', 'd', 'a', 'n', 't', 's'],
        SelectorType::Child => seq!['C', 'h', 'i', 'l', 'd'],
        SelectorType::NextSibiling => seq!['N', 'e', 'x', 't', 'S', 'i', 'b', 'i', 'l', 'i', 'n', 'g'],
        SelectorType::SubsequentSibling => seq![
            'S', 'u', 'b', 's', 'e', 'q', 'u', 'e', 'n', 't', 'S', 'i', 'b', 'l', 'i', 'n', 'g'
        ],
        SelectorType::Pseudo => seq!['P', 's', 'e', 'u', 'd', 'o'],
        SelectorType::Column => seq!['C', 'o', 'l', 'u', 'm', 'n'],
    }
}

impl SelectorType {
    /// The name of the selector type, as it is displayed.
    pub fn to_string(&self) -> (s: String)
        ensures
            s@ == selector_type_name(*self),
    {
        let v: Vec<char> = match self {
            SelectorType::Element => vec!['E', 'l', 'e', 'm', 'e', 'n', 't'],
            SelectorType::Id => vec!['I', 'd'],
            SelectorType::Class => vec!['C', 'l', 'a', 's', 's'],
            SelectorType::Universal => vec!['U', 'n', 'i', 'v', 'e', 'r', 's', 'a', 'l'],
            SelectorType::Attribute => vec!['A', 't', 't', 'r', 'i', 'b', 'u', 't', 'e'],
            SelectorType::Colon => vec!['C', 'o', 'l', 'o', 'n'],
            SelectorType::Desendants => vec!['D', 'e', 's', 'e', 'n', 'd', 'a', 'n', 't', 's'],
            SelectorType::Child => vec!['C', 'h', 'i', 'l', 'd'],
            SelectorType::NextSibiling => vec![
                'N', 'e', 'x', 't', 'S', 'i', 'b', 'i', 'l', 'i', 'n', 'g'
            ],
            SelectorType::SubsequentSibling => vec![
                'S', 'u', 'b', 's', 'e', 'q', 'u', 'e', 'n', 't', 'S', 'i', 'b', 'l', 'i', 'n', 'g'
            ],
            SelectorType::Pseudo => vec!['P', 's', 'e', 'u', 'd', 'o'],
            SelectorType::Column => vec!['C', 'o', 'l', 'u', 'm', 'n'],
        };
        assert(v@ =~= selector_type_name(*self));
        string_of(&v)
    }
}

/// One part of a selector: its kind and its text.
pub struct SelectorItem {
    pub selector_type: SelectorType,
    pub item_string: String,
}

/// A selector: its full text and its parts in order.
pub struct Selector {
    pub all_string: String,
    pub items: Vec<SelectorItem>,
}

/// A declaration `property: value`.
pub struct Declaration {
    pub propery: String,
    pub value: String,
}

/// A rule: its selectors and declarations, or a comment.
pub struct Rule {
    pub selectors: Vec<Selector>,
    pub declarations: Vec<Declaration>,
    pub comment: String,
}

/// A stylesheet: its rules.
pub struct Stylesheet {
    pub rules: Vec<Rule>,
}

/// What part of a rule is being read.
#[derive(PartialEq, Eq, Structural, Clone, Copy, Debug)]
pub enum Mode {
    Selector,
    DeclarationProperty,
    DeclarationValue,
}

#[verifier::ext_equal]
pub struct SelectorItemView {
    pub selector_type: SelectorType,
    pub item_string: Seq<char>,
}

#[verifier::ext_equal]
pub struct SelectorView {
    pub all_string: Seq<char>,
    pub items: Seq<SelectorItemView>,
}

#[verifier::ext_equal]
pub struct DeclarationView {
    pub propery: Seq<char>,
    pub value: Seq<char>,
}

#[verifier::ext_equal]
pub struct RuleView {
    pub selectors: Seq<SelectorView>,
    pub declarations: Seq<DeclarationView>,
    pub comment: Seq<char>,
}

impl View for SelectorItem {
    type V = SelectorItemView;

    open spec fn view(&self) -> SelectorItemView {
        SelectorItemView { selector_type: self.selector_type, item_string: self.item_string@ }
    }
}

pub open spec fn items_view(v: Seq<SelectorItem>) -> Seq<SelectorItemView> {
    v.map_values(|i: SelectorItem| i@)
}

impl View for Selector {
    type V = SelectorView;

    open spec fn view(&self) -> SelectorView {
        SelectorView { all_string: self.all_string@, items: items_view(self.items@) }
    }
}

pub open spec fn selectors_view(v: Seq<Selector>) -> Seq<SelectorView> {
    v.map_values(|s: Selector| s@)
}

impl View for Declaration {
    type V = DeclarationView;

    open spec fn view(&self) -> DeclarationView {
        DeclarationView { propery: self.propery@, value: self.value@ }
    }
}

pub open spec fn decls_view(v: Seq<Declaration>) -> Seq<DeclarationView> {
    v.map_values(|d: Declaration| d@)
}

impl View for Rule {
    type V = RuleView;

    open spec fn view(&self) -> RuleView {
        RuleView {
            selectors: selectors_view(self.selectors@),
            declarations: decls_view(self.declarations@),
            comment: self.comment@,
        }
    }
}

pub open spec fn rules_view(v: Seq<Rule>) -> Seq<RuleView> {
    v.map_values(|r: Rule| r@)
}

/// The kind of part that a character introduces, if it is one of the
/// combinator characters `#` `.` `*` `[` `:` space `>` `+` `~`.
pub open spec fn combinator_type(c: char) -> Option<SelectorType> {
    if c == '#' {
        Some(SelectorType::Id)
    } else if c == '.' {
        Some(SelectorType::Class)
    } else if c == '*' {
        Some(SelectorType::Universal)
    } else if c == '[' {
        Some(SelectorType::Attribute)
    } else if c == ':' {
        Some(SelectorType::Colon)
    } else if c == ' ' {
        Some(SelectorType::Desendants)
    } else if c == '>' {
        Some(SelectorType::Child)
    } else if c == '+' {
        Some(SelectorType::NextSibiling)
    } else if c == '~' {
        Some(SelectorType::SubsequentSibling)
    } else {
        None
    }
}

fn combinator_type_exec(c: char) -> (r: Option<SelectorType>)
    ensures
        r == combinator_type(c),
{
    if c == '#' {
        Some(SelectorType::Id)
    } else if c == '.' {
        Some(SelectorType::Class)
    } else if c == '*' {
        Some(SelectorType::Universal)
    } else if c == '[' {
        Some(SelectorType::Attribute)
    } else if c == ':' {
        Some(SelectorType::Colon)
    } else if c == ' ' {
        Some(SelectorType::Desendants)
    } else if c == '>' {
        Some(SelectorType::Child)
    } else if c == '+' {
        Some(SelectorType::NextSibiling)
    } else if c == '~' {
        Some(SelectorType::SubsequentSibling)
    } else {
        None
    }
}

/// Reading a selector: the parts finished so far, the kind of the part
/// being read and its text so far.
pub struct SelState {
    pub items: Seq<SelectorItemView>,
    pub cur: SelectorType,
    pub tmp: Seq<char>,
}

/// A combinator character ends the part being read (kept if it has text,
/// or if it is not the leading element part) and starts a part of its kind;
/// any other character is text of the current part.
pub open spec fn sel_step(st: SelState, c: char) -> SelState {
    match combinator_type(c) {
        Some(t) => SelState {
            items: if st.tmp.len() > 0 || st.cur != SelectorType::Element {
                st.items.push(SelectorItemView { selector_type: st.cur, item_string: st.tmp })
            } else {
                st.items
            },
            cur: t,
            tmp: Seq::empty(),
        },
        None => SelState { tmp: st.tmp.push(c), ..st },
    }
}

pub open spec fn sel_run(s: Seq<char>) -> SelState
    decreases s.len(),
{
    if s.len() == 0 {
        SelState { items: Seq::empty(), cur: SelectorType::Element, tmp: Seq::empty() }
    } else {
        sel_step(sel_run(s.drop_last()), s.last())
    }
}

/// The parts of a selector; the last part is kept only if it has text.
pub open spec fn spec_selector_items(s: Seq<char>) -> Seq<SelectorItemView> {
    let st = sel_run(s);
    if st.tmp.len() > 0 {
        st.items.push(SelectorItemView { selector_type: st.cur, item_string: st.tmp })
    } else {
        st.items
    }
}

pub open spec fn spec_handle_selector(s: Seq<char>) -> SelectorView {
    SelectorView { all_string: s, items: spec_selector_items(s) }
}

/// Splits a selector into its parts.
pub fn handle_selector(selector_str: String) -> (selector: Selector)
    ensures
        selector@ == spec_handle_selector(selector_str@),
{
    let chars = chars_of(selector_str.as_str());
    let mut items: Vec<SelectorItem> = Vec::new();
    let mut current_selector_type = SelectorType::Element;
    let mut tmp_string: Vec<char> = Vec::new();
    let mut i: usize = 0;
    assert(chars@.take(0) =~= Seq::<char>::empty());
    assert(items_view(items@) =~= Seq::<SelectorItemView>::empty());
    while i < chars.len()
        invariant
            chars@ == selector_str@,
            i <= chars.len(),
            sel_run(chars@.take(i as int)) == (SelState {
                items: items_view(items@),
                cur: current_selector_type,
                tmp: tmp_string@,
            }),
        decreases chars.len() - i,
    {
        let c = chars[i];
        assert(chars@.take(i + 1).drop_last() =~= chars@.take(i as int));
        match combinator_type_exec(c) {
            Some(t) => {
                if tmp_string.len() > 0 || current_selector_type != SelectorType::Element {
                    let ghost iv = items_view(items@);
                    let item = SelectorItem {
                        selector_type: current_selector_type,
                        item_string: string_of(&tmp_string),
                    };
                    items.push(item);
                    assert(items_view(items@) =~= iv.push(item@));
                }
                tmp_string = Vec::new();
                current_selector_type = t;
            },
            None => {
                tmp_string.push(c);
            },
        }
        i = i + 1;
    }
    assert(chars@.take(i as int) =~= chars@);
    if tmp_string.len() > 0 {
        let ghost iv = items_view(items@);
        let item = SelectorItem {
            selector_type: current_selector_type,
            item_string: string_of(&tmp_string),
        };
        items.push(item);
        assert(items_view(items@) =~= iv.push(item@));
    }
    Selector { all_string: selector_str, items }
}


/// A selector with its combinator characters left out.
pub open spec fn strip_combinators(s: Seq<char>) -> Seq<char>
    decreases s.len(),
{
    if s.len() == 0 {
        Seq::empty()
    } else {
        strip_combinators(s.drop_last()) + if combinator_type(s.last()) is Some {
            Seq::empty()
        } else {
            seq![s.last()]
        }
    }
}

/// The texts of the parts, one after the other.
pub open spec fn items_text(items: Seq<SelectorItemView>) -> Seq<char>
    decreases items.len(),
{
    if items.len() == 0 {
        Seq::empty()
    } else {
        items_text(items.drop_last()) + items.last().item_string
    }
}

/// Only the first part can be an element part.
pub open spec fn element_only_first(items: Seq<SelectorItemView>) -> bool {
    forall|k: int| 0 < k < items.len() ==> #[trigger] items[k].selector_type != SelectorType::Element
}

proof fn lemma_sel_run(s: Seq<char>)
    ensures
        items_text(sel_run(s).items) + sel_run(s).tmp == strip_combinators(s),
        element_only_first(sel_run(s).items),
        sel_run(s).items.len() > 0 ==> sel_run(s).cur != SelectorType::Element,
    decreases s.len(),
{
    if s.len() > 0 {
        lemma_sel_run(s.drop_last());
        let st = sel_run(s.drop_last());
        let c = s.last();
        match combinator_type(c) {
            Some(t) => {
                if st.tmp.len() > 0 || st.cur != SelectorType::Element {
                    let it = SelectorItemView { selector_type: st.cur, item_string: st.tmp };
                    assert(st.items.push(it).drop_last() =~= st.items);
                    assert(items_text(st.items.push(it)) =~= items_text(st.items) + st.tmp);
                    assert forall|k: int| 0 < k < st.items.push(it).len() implies #[trigger] st.items.push(it)[k].selector_type != SelectorType::Element by {
                        if k < st.items.len() {
                            assert(st.items.push(it)[k] == st.items[k]);
                        }
                    }
                } else {
                    assert(st.tmp =~= Seq::<char>::empty());
                }
                assert(strip_combinators(s) =~= strip_combinators(s.drop_last()));
                assert(items_text(sel_run(s).items) + sel_run(s).tmp =~= strip_combinators(s));
            },
            None => {
                assert(strip_combinators(s) =~= strip_combinators(s.drop_last()) + seq![c]);
                assert(items_text(sel_run(s).items) + sel_run(s).tmp =~= strip_combinators(s));
            },
        }
    }
}

/// Splitting a selector loses no text: the texts of its parts, one after
/// the other, are the selector with its combinator characters left out.
/// Only the first part can be an element part.
pub proof fn law_selector_parts_keep_text(s: Seq<char>)
    ensures
        items_text(spec_selector_items(s)) == strip_combinators(s),
        element_only_first(spec_selector_items(s)),
{
    lemma_sel_run(s);
    let st = sel_run(s);
    if st.tmp.len() > 0 {
        let it = SelectorItemView { selector_type: st.cur, item_string: st.tmp };
        assert(st.items.push(it).drop_last() =~= st.items);
        assert forall|k: int| 0 < k < st.items.push(it).len() implies #[trigger] st.items.push(it)[k].selector_type != SelectorType::Element by {
            if k < st.items.len() {
                assert(st.items.push(it)[k] == st.items[k]);
            }
        }
    } else {
        assert(st.tmp =~= Seq::<char>::empty());
        assert(items_text(st.items) + st.tmp =~= items_text(st.items));
    }
}

/// Text with none of the characters `#` `.` `*` `[` `:` space `>` `+` `~`.
pub open spec fn plain_selector_text(w: Seq<char>) -> bool {
    forall|i: int|
        0 <= i < w.len() ==> {
            let c = #[trigger] w[i];
            c != '#' && c != '.' && c != '*' && c != '[' && c != ':' && c != ' ' && c != '>'
                && c != '+' && c != '~'
        }
}

proof fn lemma_sel_run_plain(s: Seq<char>, w: Seq<char>)
    requires
        plain_selector_text(w),
    ensures
        sel_run(s + w) == (SelState { tmp: sel_run(s).tmp + w, ..sel_run(s) }),
    decreases w.len(),
{
    if w.len() == 0 {
        assert(s + w =~= s);
        assert(sel_run(s).tmp + w =~= sel_run(s).tmp);
    } else {
        lemma_sel_run_plain(s, w.drop_last());
        assert((s + w).drop_last() =~= s + w.drop_last());
        assert((s + w).last() == w.last());
        assert(w.last() == w[w.len() - 1]);
        assert(sel_run(s).tmp + w =~= (sel_run(s).tmp + w.drop_last()).push(w.last()));
    }
}

proof fn lemma_part_after(s: Seq<char>, c: char, w: Seq<char>)
    requires
        plain_selector_text(w),
        w.len() > 0,
        combinator_type(c) is Some,
    ensures
        spec_selector_items(s + seq![c] + w).last() == (SelectorItemView {
            selector_type: combinator_type(c)->0,
            item_string: w,
        }),
{
    assert((s + seq![c]).drop_last() =~= s);
    assert((s + seq![c]).last() == c);
    lemma_sel_run_plain(s + seq![c], w);
    assert(sel_run(s + seq![c]).tmp =~= Seq::<char>::empty());
    assert(Seq::<char>::empty() + w =~= w);
}

/// The part begun by a combinator character has the kind that character
/// names: `#` an id, `.` a class, `*` the universal selector, `[` an
/// attribute, `:` a colon part, a space descendants, `>` a child, `+` the
/// next sibling and `~` a subsequent sibling; its text is what follows up
/// to the next combinator. A selector with no combinator character is one
/// element part.
pub proof fn law_selector_part_kinds(s: Seq<char>, w: Seq<char>)
    requires
        plain_selector_text(w),
        w.len() > 0,
    ensures
        spec_selector_items(s + seq!['#'] + w).last() == (SelectorItemView {
            selector_type: SelectorType::Id,
            item_string: w,
        }),
        spec_selector_items(s + seq!['.'] + w).last() == (SelectorItemView {
            selector_type: SelectorType::Class,
            item_string: w,
        }),
        spec_selector_items(s + seq!['*'] + w).last() == (SelectorItemView {
            selector_type: SelectorType::Universal,
            item_string: w,
        }),
        spec_selector_items(s + seq!['['] + w).last() == (SelectorItemView {
            selector_type: SelectorType::Attribute,
            item_string: w,
        }),
        spec_selector_items(s + seq![':'] + w).last() == (SelectorItemView {
            selector_type: SelectorType::Colon,
            item_string: w,
        }),
        spec_selector_items(s + seq![' '] + w).last() == (SelectorItemView {
            selector_type: SelectorType::Desendants,
            item_string: w,
        }),
        spec_selector_items(s + seq!['>'] + w).last() == (SelectorItemView {
            selector_type: SelectorType::Child,
            item_string: w,
        }),
        spec_selector_items(s + seq!['+'] + w).last() == (SelectorItemView {
            selector_type: SelectorType::NextSibiling,
            item_string: w,
        }),
        spec_selector_items(s + seq!['~'] + w).last() == (SelectorItemView {
            selector_type: SelectorType::SubsequentSibling,
            item_string: w,
        }),
        spec_selector_items(w) == seq![
            SelectorItemView { selector_type: SelectorType::Element, item_string: w },
        ],
{
    lemma_part_after(s, '#', w);
    lemma_part_after(s, '.', w);
    lemma_part_after(s, '*', w);
    lemma_part_after(s, '[', w);
    lemma_part_after(s, ':', w);
    lemma_part_after(s, ' ', w);
    lemma_part_after(s, '>', w);
    lemma_part_after(s, '+', w);
    lemma_part_after(s, '~', w);
    lemma_sel_run_plain(Seq::empty(), w);
    assert(Seq::<char>::empty() + w =~= w);
    assert(Seq::<SelectorItemView>::empty().push(
        SelectorItemView { selector_type: SelectorType::Element, item_string: w },
    ) =~= seq![SelectorItemView { selector_type: SelectorType::Element, item_string: w }]);
}

/// Reading the selector list before a `{`: the selectors finished so far,
/// the one being read, whether it has begun, and whether the last character
/// read was a space.
pub struct SelListState {
    pub sels: Seq<Seq<char>>,
    pub cur: Seq<char>,
    pub started: bool,
    pub prev_space: bool,
}

/// Drops a trailing space (the last character read was a space).
pub open spec fn trim_last_space(s: Seq<char>, prev_space: bool) -> Seq<char> {
    if s.len() > 0 && prev_space {
        s.drop_last()
    } else {
        s
    }
}

/// A comma ends a selector (even an empty one); a leading space of a
/// selector is dropped, as is a space just before a comma.
pub open spec fn sel_list_step(st: SelListState, c: char) -> SelListState {
    if c == ',' {
        SelListState {
            sels: st.sels.push(trim_last_space(st.cur, st.prev_space)),
            cur: Seq::empty(),
            started: false,
            prev_space: st.prev_space,
        }
    } else {
        SelListState {
            cur: if st.started || c != ' ' { st.cur.push(c) } else { st.cur },
            prev_space: c == ' ',
            started: true,
            ..st
        }
    }
}

pub open spec fn sel_list_run(s: Seq<char>) -> SelListState
    decreases s.len(),
{
    if s.len() == 0 {
        SelListState { sels: Seq::empty(), cur: Seq::empty(), started: false, prev_space: false }
    } else {
        sel_list_step(sel_list_run(s.drop_last()), s.last())
    }
}

/// The selectors of the text before a `{`; the last one is kept only if it
/// is not empty.
pub open spec fn spec_selector_list(s: Seq<char>) -> Seq<Seq<char>> {
    let st = sel_list_run(s);
    if st.cur.len() > 0 {
        st.sels.push(trim_last_space(st.cur, st.prev_space))
    } else {
        st.sels
    }
}

/// Reading a declaration: property and value so far, whether the colon has
/// been read, whether the current side has begun, and whether the last
/// character was a space.
pub struct DeclState {
    pub prop: Seq<char>,
    pub value: Seq<char>,
    pub after_colon: bool,
    pub started: bool,
    pub prev_space: bool,
}

/// The first colon splits property from value; a leading space of either
/// side is dropped, as is a space just before the colon.
pub open spec fn decl_step(st: DeclState, c: char) -> DeclState {
    let st1 = if st.after_colon {
        DeclState {
            value: if st.started || c != ' ' { st.value.push(c) } else { st.value },
            started: true,
            ..st
        }
    } else if c == ':' {
        DeclState {
            after_colon: true,
            started: false,
            prop: trim_last_space(st.prop, st.prev_space),
            ..st
        }
    } else {
        DeclState {
            prop: if st.started || c != ' ' { st.prop.push(c) } else { st.prop },
            started: true,
            ..st
        }
    };
    DeclState { prev_space: c == ' ', ..st1 }
}

pub open spec fn decl_run(s: Seq<char>) -> DeclState
    decreases s.len(),
{
    if s.len() == 0 {
        DeclState {
            prop: Seq::empty(),
            value: Seq::empty(),
            after_colon: false,
            started: false,
            prev_space: false,
        }
    } else {
        decl_step(decl_run(s.drop_last()), s.last())
    }
}

/// The declaration written in `s`; a space ending the value is dropped.
pub open spec fn spec_declaration(s: Seq<char>) -> DeclarationView {
    let st = decl_run(s);
    DeclarationView { propery: st.prop, value: trim_last_space(st.value, st.prev_space) }
}

/// The state of the stylesheet reader between two characters.
#[verifier::ext_equal]
pub struct CssState {
    pub rules: Seq<RuleView>,
    pub tmp: Seq<char>,
    pub comment: Seq<char>,
    pub stack: Seq<Seq<Seq<char>>>,
    pub decls: Seq<DeclarationView>,
    pub prev_slash: bool,
    pub prev_asterisk: bool,
    pub prev_space: bool,
    pub in_comment: bool,
}

pub open spec fn initial_css_state() -> CssState {
    CssState {
        rules: Seq::empty(),
        tmp: Seq::empty(),
        comment: Seq::empty(),
        stack: Seq::empty(),
        decls: Seq::empty(),
        prev_slash: false,
        prev_asterisk: false,
        prev_space: false,
        in_comment: false,
    }
}

pub open spec fn drop_last_if_any<A>(s: Seq<A>) -> Seq<A> {
    if s.len() > 0 {
        s.drop_last()
    } else {
        s
    }
}

pub open spec fn css_flags(st: CssState, c: char) -> CssState {
    CssState { prev_asterisk: c == '*', prev_slash: c == '/', prev_space: c == ' ', ..st }
}

/// A rule that holds only a comment.
pub open spec fn comment_rule(comment: Seq<char>) -> RuleView {
    RuleView { selectors: Seq::empty(), declarations: Seq::empty(), comment }
}

/// At `{`: the text read so far is a selector list, opened as a block.
pub open spec fn css_open_block(st: CssState) -> CssState {
    let sels = spec_selector_list(st.tmp);
    CssState {
        stack: if sels.len() > 0 { st.stack.push(sels) } else { st.stack },
        tmp: Seq::empty(),
        ..st
    }
}

/// At `;` or `}`: the text read so far is a declaration, kept when both
/// sides are non-empty. At `}` the innermost block is closed: its selectors
/// and declarations make a rule, kept unless both are empty.
pub open spec fn css_end_decl(st: CssState, c: char) -> CssState {
    let d = spec_declaration(st.tmp);
    let decls = if st.tmp.len() > 0 && d.propery.len() > 0 && d.value.len() > 0 {
        st.decls.push(d)
    } else {
        st.decls
    };
    if c == '}' {
        let sels = if st.stack.len() > 0 {
            st.stack.last().map_values(|s: Seq<char>| spec_handle_selector(s))
        } else {
            Seq::empty()
        };
        let rule = RuleView { selectors: sels, declarations: decls, comment: Seq::empty() };
        CssState {
            tmp: Seq::empty(),
            stack: drop_last_if_any(st.stack),
            rules: if sels.len() > 0 || decls.len() > 0 { st.rules.push(rule) } else { st.rules },
            decls: Seq::empty(),
            ..st
        }
    } else {
        CssState { tmp: Seq::empty(), decls, ..st }
    }
}

/// One character of a stylesheet. Outside comments, line breaks and a
/// space right after a space are skipped.
pub open spec fn css_step(st: CssState, c: char) -> CssState {
    if !st.in_comment && ((st.prev_space && c == ' ') || c == '\n') {
        st
    } else if st.in_comment {
        if c == '/' && st.prev_asterisk {
            let comment = drop_last_if_any(st.comment);
            CssState {
                in_comment: false,
                comment,
                rules: st.rules.push(comment_rule(comment)),
                ..st
            }
        } else {
            css_flags(CssState { comment: st.comment.push(c), ..st }, c)
        }
    } else if c == '*' && st.prev_slash {
        CssState { in_comment: true, comment: Seq::empty(), tmp: drop_last_if_any(st.tmp), ..st }
    } else if c == '{' {
        css_flags(css_open_block(st), c)
    } else if c == ';' || c == '}' {
        css_flags(css_end_decl(st, c), c)
    } else {
        css_flags(CssState { tmp: st.tmp.push(c), ..st }, c)
    }
}

pub open spec fn css_run(s: Seq<char>) -> CssState
    decreases s.len(),
{
    if s.len() == 0 {
        initial_css_state()
    } else {
        css_step(css_run(s.drop_last()), s.last())
    }
}

/// The rules of several stylesheets, one after the other.
pub open spec fn spec_parse_css(strs: Seq<Seq<char>>) -> Seq<RuleView>
    decreases strs.len(),
{
    if strs.len() == 0 {
        Seq::empty()
    } else {
        spec_parse_css(strs.drop_last()) + css_run(strs.last()).rules
    }
}


pub open spec fn strings_view(v: Seq<String>) -> Seq<Seq<char>> {
    v.map_values(|s: String| s@)
}

fn trim_last_space_exec(v: &mut Vec<char>, prev_space: bool)
    ensures
        final(v)@ == trim_last_space(old(v)@, prev_space),
{
    if v.len() > 0 && prev_space {
        v.pop();
    }
}

/// The selectors of the text before a `{`.
fn selector_list(tmp: &Vec<char>) -> (r: Vec<String>)
    ensures
        strings_view(r@) == spec_selector_list(tmp@),
{
    let mut sels: Vec<String> = Vec::new();
    let mut cur: Vec<char> = Vec::new();
    let mut started = false;
    let mut prev_space = false;
    let mut i: usize = 0;
    assert(tmp@.take(0) =~= Seq::<char>::empty());
    assert(strings_view(sels@) =~= Seq::<Seq<char>>::empty());
    while i < tmp.len()
        invariant
            i <= tmp.len(),
            sel_list_run(tmp@.take(i as int)) == (SelListState {
                sels: strings_view(sels@),
                cur: cur@,
                started,
                prev_space,
            }),
        decreases tmp.len() - i,
    {
        let c = tmp[i];
        assert(tmp@.take(i + 1).drop_last() =~= tmp@.take(i as int));
        if c == ',' {
            started = false;
            trim_last_space_exec(&mut cur, prev_space);
            let ghost sv = strings_view(sels@);
            let s = string_of(&cur);
            sels.push(s);
            assert(strings_view(sels@) =~= sv.push(cur@));
            cur = Vec::new();
        } else {
            if started || c != ' ' {
                cur.push(c);
            }
            prev_space = c == ' ';
            started = true;
        }
        i = i + 1;
    }
    assert(tmp@.take(i as int) =~= tmp@);
    if cur.len() > 0 {
        trim_last_space_exec(&mut cur, prev_space);
        let ghost sv = strings_view(sels@);
        let s = string_of(&cur);
        sels.push(s);
        assert(strings_view(sels@) =~= sv.push(cur@));
    }
    sels
}

/// The declaration written in `tmp`.
fn declaration(tmp: &Vec<char>) -> (d: Declaration)
    ensures
        d@ == spec_declaration(tmp@),
{
    let mut prop: Vec<char> = Vec::new();
    let mut value: Vec<char> = Vec::new();
    let mut after_colon = false;
    let mut started = false;
    let mut prev_space = false;
    let mut i: usize = 0;
    assert(tmp@.take(0) =~= Seq::<char>::empty());
    while i < tmp.len()
        invariant
            i <= tmp.len(),
            decl_run(tmp@.take(i as int)) == (DeclState {
                prop: prop@,
                value: value@,
                after_colon,
                started,
                prev_space,
            }),
        decreases tmp.len() - i,
    {
        let c = tmp[i];
        assert(tmp@.take(i + 1).drop_last() =~= tmp@.take(i as int));
        if after_colon {
            if started || c != ' ' {
                value.push(c);
            }
            started = true;
        } else if c == ':' {
            after_colon = true;
            started = false;
            trim_last_space_exec(&mut prop, prev_space);
        } else {
            if started || c != ' ' {
                prop.push(c);
            }
            started = true;
        }
        prev_space = c == ' ';
        i = i + 1;
    }
    assert(tmp@.take(i as int) =~= tmp@);
    trim_last_space_exec(&mut value, prev_space);
    Declaration { propery: string_of(&prop), value: string_of(&value) }
}

pub open spec fn stack_view(v: Seq<Vec<String>>) -> Seq<Seq<Seq<char>>> {
    v.map_values(|x: Vec<String>| strings_view(x@))
}

/// The working state of the stylesheet reader.
struct CssReader {
    rules: Vec<Rule>,
    tmp: Vec<char>,
    comment: Vec<char>,
    stack: Vec<Vec<String>>,
    decls: Vec<Declaration>,
    prev_slash: bool,
    prev_asterisk: bool,
    prev_space: bool,
    in_comment: bool,
}

impl View for CssReader {
    type V = CssState;

    closed spec fn view(&self) -> CssState {
        CssState {
            rules: rules_view(self.rules@),
            tmp: self.tmp@,
            comment: self.comment@,
            stack: stack_view(self.stack@),
            decls: decls_view(self.decls@),
            prev_slash: self.prev_slash,
            prev_asterisk: self.prev_asterisk,
            prev_space: self.prev_space,
            in_comment: self.in_comment,
        }
    }
}

/// The selectors of a closed block, each split into its parts.
fn handle_selectors(sels: &Vec<String>) -> (r: Vec<Selector>)
    ensures
        selectors_view(r@) == strings_view(sels@).map_values(|s: Seq<char>| spec_handle_selector(s)),
{
    let mut r: Vec<Selector> = Vec::new();
    let mut i: usize = 0;
    while i < sels.len()
        invariant
            i <= sels.len(),
            selectors_view(r@) == strings_view(sels@).map_values(|s: Seq<char>| spec_handle_selector(s)).take(i as int),
        decreases sels.len() - i,
    {
        let ghost rv = selectors_view(r@);
        let sel = handle_selector(sels[i].clone());
        r.push(sel);
        assert(selectors_view(r@) =~= rv.push(sel@));
        i = i + 1;
        assert(selectors_view(r@) =~= strings_view(sels@).map_values(|s: Seq<char>| spec_handle_selector(s)).take(i as int));
    }
    assert(strings_view(sels@).map_values(|s: Seq<char>| spec_handle_selector(s)).take(i as int)
        =~= strings_view(sels@).map_values(|s: Seq<char>| spec_handle_selector(s)));
    r
}

impl CssReader {
    fn new() -> (r: CssReader)
        ensures
            r@ == initial_css_state(),
    {
        let r = CssReader {
            rules: Vec::new(),
            tmp: Vec::new(),
            comment: Vec::new(),
            stack: Vec::new(),
            decls: Vec::new(),
            prev_slash: false,
            prev_asterisk: false,
            prev_space: false,
            in_comment: false,
        };
        assert(r@ =~= initial_css_state());
        r
    }

    fn set_flags(&mut self, c: char)
        ensures
            final(self)@ == css_flags(old(self)@, c),
    {
        self.prev_asterisk = c == '*';
        self.prev_slash = c == '/';
        self.prev_space = c == ' ';
    }

    fn open_block(&mut self)
        ensures
            final(self)@ == css_open_block(old(self)@),
    {
        let sels = selector_list(&self.tmp);
        if sels.len() > 0 {
            let ghost sv = stack_view(self.stack@);
            let ghost selv = strings_view(sels@);
            self.stack.push(sels);
            assert(stack_view(self.stack@) =~= sv.push(selv));
        }
        self.tmp = Vec::new();
    }

    fn end_decl(&mut self, c: char)
        ensures
            final(self)@ == css_end_decl(old(self)@, c),
    {
        let ghost st0 = self@;
        let ghost d_spec = spec_declaration(st0.tmp);
        let ghost decls_spec = if st0.tmp.len() > 0 && d_spec.propery.len() > 0 && d_spec.value.len() > 0 {
            st0.decls.push(d_spec)
        } else {
            st0.decls
        };
        if self.tmp.len() > 0 {
            let d = declaration(&self.tmp);
            if d.propery.as_str().is_empty() == false && d.value.as_str().is_empty() == false {
                let ghost dv = decls_view(self.decls@);
                let ghost d_v = d@;
                self.decls.push(d);
                assert(decls_view(self.decls@) =~= dv.push(d_v));
            }
        }
        self.tmp = Vec::new();
        assert(decls_view(self.decls@) == decls_spec);
        if c == '}' {
            let ghost sv = stack_view(self.stack@);
            let selectors = match self.stack.pop() {
                Some(top) => {
                    assert(strings_view(top@) == sv.last());
                    handle_selectors(&top)
                },
                None => Vec::new(),
            };
            assert(stack_view(self.stack@) =~= drop_last_if_any(sv));
            let ghost selv = selectors_view(selectors@);
            let ghost sels_spec = if st0.stack.len() > 0 {
                st0.stack.last().map_values(|s: Seq<char>| spec_handle_selector(s))
            } else {
                Seq::empty()
            };
            assert(selv =~= sels_spec);
            assert(selv.len() == selectors.len());
            let mut decls: Vec<Declaration> = Vec::new();
            std::mem::swap(&mut decls, &mut self.decls);
            let ghost dv = decls_view(decls@);
            if selectors.len() > 0 || decls.len() > 0 {
                let ghost rv = rules_view(self.rules@);
                let rule = Rule { selectors, declarations: decls, comment: String::new() };
                assert(rule@ =~= (RuleView { selectors: selv, declarations: dv, comment: Seq::empty() }));
                self.rules.push(rule);
                assert(rules_view(self.rules@) =~= rv.push(RuleView { selectors: selv, declarations: dv, comment: Seq::empty() }));
            }
            assert(decls_view(self.decls@) =~= Seq::<DeclarationView>::empty());
            assert(dv == decls_spec);
            assert(self@.rules == css_end_decl(st0, c).rules);
            assert(self@.stack == css_end_decl(st0, c).stack);
            assert(self@.tmp == css_end_decl(st0, c).tmp);
        }
    }

    fn step(&mut self, c: char)
        ensures
            final(self)@ == css_step(old(self)@, c),
    {
        if !self.in_comment && ((self.prev_space && c == ' ') || c == '\n') {
            // skipped
        } else if self.in_comment {
            if c == '/' && self.prev_asterisk {
                self.in_comment = false;
                if self.comment.len() > 0 {
                    self.comment.pop();
                }
                let ghost rv = rules_view(self.rules@);
                let rule = Rule {
                    selectors: Vec::new(),
                    declarations: Vec::new(),
                    comment: string_of(&self.comment),
                };
                assert(rule@ =~= comment_rule(self.comment@));
                self.rules.push(rule);
                assert(rules_view(self.rules@) =~= rv.push(comment_rule(self.comment@)));
            } else {
                self.comment.push(c);
                self.set_flags(c);
            }
        } else if c == '*' && self.prev_slash {
            self.in_comment = true;
            self.comment = Vec::new();
            if self.tmp.len() > 0 {
                self.tmp.pop();
            }
        } else if c == '{' {
            self.open_block();
            self.set_flags(c);
        } else if c == ';' || c == '}' {
            self.end_decl(c);
            self.set_flags(c);
        } else {
            self.tmp.push(c);
            self.set_flags(c);
        }
    }
}

/// The rules of one stylesheet.
fn parse_one(css: &String) -> (r: Vec<Rule>)
    ensures
        rules_view(r@) == css_run(css@).rules,
{
    let chars = chars_of(css.as_str());
    let mut reader = CssReader::new();
    let mut i: usize = 0;
    assert(chars@.take(0) =~= Seq::<char>::empty());
    while i < chars.len()
        invariant
            chars@ == css@,
            i <= chars.len(),
            reader@ == css_run(chars@.take(i as int)),
        decreases chars.len() - i,
    {
        assert(chars@.take(i + 1).drop_last() =~= chars@.take(i as int));
        reader.step(chars[i]);
        i = i + 1;
    }
    assert(chars@.take(i as int) =~= chars@);
    reader.rules
}


/// The rules of several stylesheets, one after the other.
fn parse_all(css_strs: &Vec<String>) -> (r: Vec<Rule>)
    ensures
        rules_view(r@) == spec_parse_css(strings_view(css_strs@)),
{
    let ghost sv = strings_view(css_strs@);
    let mut result: Vec<Rule> = Vec::new();
    let mut i: usize = 0;
    assert(sv.take(0) =~= Seq::<Seq<char>>::empty());
    assert(rules_view(result@) =~= Seq::<RuleView>::empty());
    while i < css_strs.len()
        invariant
            sv == strings_view(css_strs@),
            i <= css_strs.len(),
            rules_view(result@) == spec_parse_css(sv.take(i as int)),
        decreases css_strs.len() - i,
    {
        let ghost rv = rules_view(result@);
        let mut rules = parse_one(&css_strs[i]);
        let ghost nv = rules_view(rules@);
        result.append(&mut rules);
        assert(rules_view(result@) =~= rv + nv);
        assert(sv.take(i + 1).drop_last() =~= sv.take(i as int));
        assert(sv.take(i + 1).last() == css_strs@[i as int]@);
        i = i + 1;
    }
    assert(sv.take(i as int) =~= sv);
    result
}

/// Parsing stylesheets one list after another gives the same rules as
/// parsing the two lists joined: the rules of the first list, then those of
/// the second.
pub proof fn law_parse_css_concat(a: Seq<Seq<char>>, b: Seq<Seq<char>>)
    ensures
        spec_parse_css(a + b) == spec_parse_css(a) + spec_parse_css(b),
    decreases b.len(),
{
    if b.len() == 0 {
        assert(a + b =~= a);
        assert(spec_parse_css(a) + spec_parse_css(b) =~= spec_parse_css(a));
    } else {
        law_parse_css_concat(a, b.drop_last());
        assert((a + b).drop_last() =~= a + b.drop_last());
        assert((a + b).last() == b.last());
        assert(spec_parse_css(a + b) =~= spec_parse_css(a) + spec_parse_css(b));
    }
}

/// A character the stylesheet reader keeps as text: no line break, space,
/// `/`, `*`, brace or `;`.
pub open spec fn css_text_char(c: char) -> bool {
    c != '\n' && c != ' ' && c != '/' && c != '*' && c != '{' && c != '}' && c != ';'
}

/// A selector, property or value written without spaces, and without any
/// character that has a meaning of its own in a stylesheet.
pub open spec fn plain_css_word(w: Seq<char>) -> bool {
    forall|i: int| 0 <= i < w.len() ==> css_text_char(#[trigger] w[i]) && w[i] != ':' && w[i] != ','
}

/// Declarations written one after the other as `property:value;`.
pub open spec fn decls_text(ds: Seq<DeclarationView>) -> Seq<char>
    decreases ds.len(),
{
    if ds.len() == 0 {
        Seq::empty()
    } else {
        decls_text(ds.drop_last()) + ds.last().propery + seq![':'] + ds.last().value + seq![';']
    }
}

/// Every property and value is a non-empty plain word.
pub open spec fn plain_decls(ds: Seq<DeclarationView>) -> bool {
    forall|k: int|
        0 <= k < ds.len() ==> {
            &&& plain_css_word(#[trigger] ds[k].propery)
            &&& plain_css_word(ds[k].value)
            &&& ds[k].propery.len() > 0
            &&& ds[k].value.len() > 0
        }
}

proof fn lemma_css_run_text(a: Seq<char>, w: Seq<char>)
    requires
        !css_run(a).in_comment,
        !css_run(a).prev_space,
        !css_run(a).prev_slash,
        !css_run(a).prev_asterisk,
        forall|i: int| 0 <= i < w.len() ==> css_text_char(#[trigger] w[i]),
    ensures
        css_run(a + w) == (CssState { tmp: css_run(a).tmp + w, ..css_run(a) }),
    decreases w.len(),
{
    if w.len() == 0 {
        assert(a + w =~= a);
        assert(css_run(a).tmp + w =~= css_run(a).tmp);
    } else {
        lemma_css_run_text(a, w.drop_last());
        assert((a + w).drop_last() =~= a + w.drop_last());
        assert((a + w).last() == w.last());
        assert(css_text_char(w[w.len() - 1]));
        assert(css_run(a).tmp + w =~= (css_run(a).tmp + w.drop_last()).push(w.last()));
    }
}

proof fn lemma_decl_run_prop(p: Seq<char>)
    requires
        plain_css_word(p),
    ensures
        decl_run(p) == (DeclState {
            prop: p,
            value: Seq::empty(),
            after_colon: false,
            started: p.len() > 0,
            prev_space: false,
        }),
    decreases p.len(),
{
    if p.len() > 0 {
        lemma_decl_run_prop(p.drop_last());
        assert(css_text_char(p[p.len() - 1]));
        assert(p.drop_last().push(p.last()) =~= p);
    } else {
        assert(p =~= Seq::<char>::empty());
    }
}

proof fn lemma_decl_run_value(x: Seq<char>, v: Seq<char>)
    requires
        decl_run(x).after_colon,
        decl_run(x).started || v.len() == 0 || v[0] != ' ',
        plain_css_word(v),
    ensures
        decl_run(x + v) == (DeclState {
            value: decl_run(x).value + v,
            started: decl_run(x).started || v.len() > 0,
            prev_space: if v.len() > 0 { false } else { decl_run(x).prev_space },
            ..decl_run(x)
        }),
    decreases v.len(),
{
    if v.len() == 0 {
        assert(x + v =~= x);
        assert(decl_run(x).value + v =~= decl_run(x).value);
    } else {
        lemma_decl_run_value(x, v.drop_last());
        assert((x + v).drop_last() =~= x + v.drop_last());
        assert((x + v).last() == v.last());
        assert(css_text_char(v[v.len() - 1]));
        assert(decl_run(x).value + v =~= (decl_run(x).value + v.drop_last()).push(v.last()));
    }
}

proof fn lemma_declaration_plain(p: Seq<char>, v: Seq<char>)
    requires
        plain_css_word(p),
        plain_css_word(v),
    ensures
        spec_declaration(p + seq![':'] + v) == (DeclarationView { propery: p, value: v }),
{
    lemma_decl_run_prop(p);
    let x = p + seq![':'];
    assert(x.drop_last() =~= p);
    assert(x.last() == ':');
    assert(decl_run(x).prop == p);
    if v.len() > 0 {
        assert(css_text_char(v[0]));
    }
    lemma_decl_run_value(x, v);
    assert(Seq::<char>::empty() + v =~= v);
}

proof fn lemma_sel_list_plain(s: Seq<char>)
    requires
        plain_css_word(s),
    ensures
        sel_list_run(s) == (SelListState {
            sels: Seq::empty(),
            cur: s,
            started: s.len() > 0,
            prev_space: false,
        }),
    decreases s.len(),
{
    if s.len() > 0 {
        lemma_sel_list_plain(s.drop_last());
        assert(css_text_char(s[s.len() - 1]));
        assert(s.drop_last().push(s.last()) =~= s);
    } else {
        assert(s =~= Seq::<char>::empty());
    }
}

/// The reader inside the block of `sel` after its declarations.
pub open spec fn in_block_state(sel: Seq<char>, ds: Seq<DeclarationView>) -> CssState {
    CssState { stack: seq![seq![sel]], decls: ds, ..initial_css_state() }
}

proof fn lemma_css_block_body(sel: Seq<char>, ds: Seq<DeclarationView>)
    requires
        plain_css_word(sel),
        sel.len() > 0,
        plain_decls(ds),
    ensures
        css_run(sel + seq!['{'] + decls_text(ds)) == in_block_state(sel, ds),
    decreases ds.len(),
{
    if ds.len() == 0 {
        assert(sel + seq!['{'] + decls_text(ds) =~= sel + seq!['{']);
        lemma_css_run_text(Seq::empty(), sel);
        assert(Seq::<char>::empty() + sel =~= sel);
        assert(initial_css_state().tmp + sel =~= sel);
        lemma_sel_list_plain(sel);
        assert(spec_selector_list(sel) =~= seq![sel]);
        assert((sel + seq!['{']).drop_last() =~= sel);
        assert((sel + seq!['{']).last() == '{');
        assert(css_run(sel + seq!['{']) =~= in_block_state(sel, ds));
    } else {
        let d = ds.last();
        lemma_css_block_body(sel, ds.drop_last());
        assert(plain_css_word(d.propery) && plain_css_word(d.value)) by {
            assert(d == ds[ds.len() - 1]);
        }
        assert(d.propery.len() > 0 && d.value.len() > 0) by {
            assert(d == ds[ds.len() - 1]);
        }
        let x = sel + seq!['{'] + decls_text(ds.drop_last());
        let w = d.propery + seq![':'] + d.value;
        assert forall|i: int| 0 <= i < w.len() implies css_text_char(#[trigger] w[i]) by {
            if i < d.propery.len() {
                assert(w[i] == d.propery[i]);
            } else if i > d.propery.len() {
                assert(w[i] == d.value[i - d.propery.len() - 1]);
            }
        }
        lemma_css_run_text(x, w);
        lemma_declaration_plain(d.propery, d.value);
        assert(Seq::<char>::empty() + w =~= w);
        let full = sel + seq!['{'] + decls_text(ds);
        assert(full =~= (x + w).push(';'));
        assert(full.drop_last() =~= x + w);
        assert(full.last() == ';');
        assert(css_run(full) =~= in_block_state(sel, ds));
    }
}

/// The block text of `ds` with the `;` after the last declaration left out:
/// `}` closes it.
pub open spec fn decls_text_open_end(ds: Seq<DeclarationView>) -> Seq<char> {
    if ds.len() == 0 {
        Seq::empty()
    } else {
        decls_text(ds.drop_last()) + ds.last().propery + seq![':'] + ds.last().value
    }
}

/// The declarations of a rule are those of its block, in the order they are
/// written: for a block `sel{p1:v1;...;pn:vn;}` of plain words (the last
/// `;` may be left out) the stylesheet holds one rule, whose selector is
/// `sel` and whose declarations are `(p1, v1)`, ..., `(pn, vn)`; each one
/// read is added after those before it.
pub proof fn law_block_declarations_in_order(sel: Seq<char>, ds: Seq<DeclarationView>)
    requires
        plain_css_word(sel),
        sel.len() > 0,
        plain_decls(ds),
    ensures
        spec_parse_css(seq![sel + seq!['{'] + decls_text(ds) + seq!['}']]) == seq![
            RuleView {
                selectors: seq![spec_handle_selector(sel)],
                declarations: ds,
                comment: Seq::empty(),
            },
        ],
        spec_parse_css(seq![sel + seq!['{'] + decls_text_open_end(ds) + seq!['}']]) == seq![
            RuleView {
                selectors: seq![spec_handle_selector(sel)],
                declarations: ds,
                comment: Seq::empty(),
            },
        ],
{
    lemma_block_rule(sel, ds);
    if ds.len() == 0 {
        assert(decls_text_open_end(ds) =~= decls_text(ds));
    } else {
        let d = ds.last();
        lemma_css_block_body(sel, ds.drop_last());
        assert(plain_css_word(d.propery) && plain_css_word(d.value) && d.propery.len() > 0
            && d.value.len() > 0) by {
            assert(d == ds[ds.len() - 1]);
        }
        let x = sel + seq!['{'] + decls_text(ds.drop_last());
        let w = d.propery + seq![':'] + d.value;
        assert forall|i: int| 0 <= i < w.len() implies css_text_char(#[trigger] w[i]) by {
            if i < d.propery.len() {
                assert(w[i] == d.propery[i]);
            } else if i > d.propery.len() {
                assert(w[i] == d.value[i - d.propery.len() - 1]);
            }
        }
        lemma_css_run_text(x, w);
        lemma_declaration_plain(d.propery, d.value);
        assert(Seq::<char>::empty() + w =~= w);
        let body = sel + seq!['{'] + decls_text_open_end(ds);
        assert(body =~= x + w);
        let full = body + seq!['}'];
        assert(full.drop_last() =~= body);
        assert(full.last() == '}');
        let rule = RuleView {
            selectors: seq![spec_handle_selector(sel)],
            declarations: ds,
            comment: Seq::empty(),
        };
        assert(seq![sel].map_values(|s: Seq<char>| spec_handle_selector(s)) =~= seq![
            spec_handle_selector(sel),
        ]);
        assert(ds.drop_last().push(d) =~= ds);
        assert(css_run(full).rules =~= seq![rule]);
        let strs = seq![full];
        assert(strs.drop_last() =~= Seq::<Seq<char>>::empty());
        assert(strs.last() == full);
        assert(spec_parse_css(Seq::<Seq<char>>::empty()) == Seq::<RuleView>::empty());
        assert(spec_parse_css(strs) == spec_parse_css(strs.drop_last()) + css_run(full).rules);
        assert(spec_parse_css(strs) =~= Seq::<RuleView>::empty() + seq![rule]);
    }
}

proof fn lemma_block_rule(sel: Seq<char>, ds: Seq<DeclarationView>)
    requires
        plain_css_word(sel),
        sel.len() > 0,
        plain_decls(ds),
    ensures
        spec_parse_css(seq![sel + seq!['{'] + decls_text(ds) + seq!['}']]) == seq![
            RuleView {
                selectors: seq![spec_handle_selector(sel)],
                declarations: ds,
                comment: Seq::empty(),
            },
        ],
{
    lemma_css_block_body(sel, ds);
    let body = sel + seq!['{'] + decls_text(ds);
    let full = body + seq!['}'];
    assert(full.drop_last() =~= body);
    assert(full.last() == '}');
    let rule = RuleView {
        selectors: seq![spec_handle_selector(sel)],
        declarations: ds,
        comment: Seq::empty(),
    };
    assert(seq![sel].map_values(|s: Seq<char>| spec_handle_selector(s)) =~= seq![
        spec_handle_selector(sel),
    ]);
    assert(css_run(full).rules =~= seq![rule]);
    let strs = seq![full];
    assert(strs.drop_last() =~= Seq::<Seq<char>>::empty());
    assert(strs.last() == full);
    assert(spec_parse_css(Seq::<Seq<char>>::empty()) == Seq::<RuleView>::empty());
    assert(spec_parse_css(strs) == spec_parse_css(strs.drop_last()) + css_run(full).rules);
    assert(spec_parse_css(strs) =~= Seq::<RuleView>::empty() + seq![rule]);
}

/// The page a stylesheet set belongs to: its directory, the links of its
/// stylesheets and their texts.
pub struct CSSData {
    pub current_dir: String,
    pub links: Vec<String>,
    pub css_strs: Vec<String>,
}

#[verifier::ext_equal]
pub struct CSSDataView {
    pub current_dir: Seq<char>,
    pub links: Seq<Seq<char>>,
    pub css_strs: Seq<Seq<char>>,
}

impl View for CSSData {
    type V = CSSDataView;

    open spec fn view(&self) -> CSSDataView {
        CSSDataView {
            current_dir: self.current_dir@,
            links: strings_view(self.links@),
            css_strs: strings_view(self.css_strs@),
        }
    }
}

impl Default for CSSData {
    fn default() -> (r: Self)
        ensures
            r@ == (CSSDataView {
                current_dir: Seq::empty(),
                links: Seq::empty(),
                css_strs: Seq::empty(),
            }),
    {
        let r = CSSData { current_dir: String::new(), links: Vec::new(), css_strs: Vec::new() };
        assert(r@ =~= (CSSDataView {
            current_dir: Seq::empty(),
            links: Seq::empty(),
            css_strs: Seq::empty(),
        }));
        r
    }
}

/// How many characters follow the last `/` (all of them if there is none).
pub open spec fn trailing_count(s: Seq<char>) -> nat
    decreases s.len(),
{
    if s.len() == 0 {
        0
    } else if s.last() == '/' {
        0
    } else {
        trailing_count(s.drop_last()) + 1
    }
}

/// No run of characters other than `/` in the URL is as long as the largest
/// `i32`.
pub open spec fn segments_fit_i32(url: Seq<char>) -> bool {
    forall|i: int| 0 <= i <= url.len() ==> #[trigger] trailing_count(url.take(i)) < i32::MAX
}

/// The directory of a URL: the URL without its last `/` and what follows
/// it; empty when there is no `/`.
pub open spec fn spec_dir_of(url: Seq<char>) -> Seq<char> {
    let cut = trailing_count(url) + 1;
    if cut <= url.len() {
        url.take(url.len() - cut)
    } else {
        Seq::empty()
    }
}

/// The pieces of `s` between the occurrences of `c` (one more piece than
/// there are occurrences).
pub open spec fn split_on(s: Seq<char>, c: char) -> Seq<Seq<char>>
    decreases s.len(),
{
    if s.len() == 0 {
        seq![Seq::empty()]
    } else {
        let p = split_on(s.drop_last(), c);
        if s.last() == c {
            p.push(Seq::empty())
        } else {
            p.update(p.len() - 1, p.last().push(s.last()))
        }
    }
}

/// The first `k` pieces, each followed by `/` except the third.
pub open spec fn join_host(pieces: Seq<Seq<char>>, k: nat) -> Seq<char>
    decreases k,
{
    if k == 0 {
        Seq::empty()
    } else {
        join_host(pieces, (k - 1) as nat) + pieces[k - 1] + (if k - 1 != 2 {
            seq!['/']
        } else {
            Seq::empty()
        })
    }
}

/// The scheme and host part of a directory URL: its first three `/`-separated
/// pieces.
pub open spec fn host_prefix(dir: Seq<char>) -> Seq<char> {
    let p = split_on(dir, '/');
    join_host(p, if p.len() < 3 { p.len() } else { 3 })
}

pub open spec fn lit_http() -> Seq<char> {
    seq!['h', 't', 't', 'p', ':', '/', '/']
}

pub open spec fn lit_https() -> Seq<char> {
    seq!['h', 't', 't', 'p', 's', ':', '/', '/']
}

/// A link made absolute against the directory of the page: kept as it is
/// when it starts with `http://` or `https://`, put after the scheme and
/// host when it starts with `/`, and put after the directory and a `/`
/// otherwise.
pub open spec fn spec_link_format(dir: Seq<char>, link: Seq<char>) -> Seq<char> {
    if starts_with(link, lit_http()) || starts_with(link, lit_https()) {
        link
    } else if starts_with(link, seq!['/']) {
        host_prefix(dir) + link
    } else {
        dir + seq!['/'] + link
    }
}

proof fn lemma_split_nonempty(s: Seq<char>, c: char)
    ensures
        split_on(s, c).len() >= 1,
    decreases s.len(),
{
    if s.len() > 0 {
        lemma_split_nonempty(s.drop_last(), c);
    }
}

/// Reading one more character leaves all pieces but the last as they were.
proof fn lemma_split_step(s: Seq<char>, j: int, c: char)
    requires
        0 <= j < s.len(),
    ensures
        split_on(s.take(j + 1), c).len() >= split_on(s.take(j), c).len(),
        forall|k: int|
            0 <= k < split_on(s.take(j), c).len() - 1 ==> #[trigger] split_on(s.take(j + 1), c)[k]
                == split_on(s.take(j), c)[k],
{
    lemma_split_nonempty(s.take(j), c);
    assert(s.take(j + 1).drop_last() =~= s.take(j));
}

/// The pieces of a prefix, but its last, are pieces of the whole.
proof fn lemma_split_prefix(s: Seq<char>, j: int, c: char)
    requires
        0 <= j <= s.len(),
    ensures
        split_on(s, c).len() >= split_on(s.take(j), c).len(),
        forall|k: int|
            0 <= k < split_on(s.take(j), c).len() - 1 ==> #[trigger] split_on(s, c)[k] == split_on(
                s.take(j),
                c,
            )[k],
    decreases s.len() - j,
{
    if j == s.len() {
        assert(s.take(j) =~= s);
    } else {
        lemma_split_step(s, j, c);
        lemma_split_prefix(s, j + 1, c);
        assert forall|k: int| 0 <= k < split_on(s.take(j), c).len() - 1 implies #[trigger] split_on(s, c)[k]
            == split_on(s.take(j), c)[k] by {
            assert(split_on(s.take(j + 1), c)[k] == split_on(s.take(j), c)[k]);
        }
    }
}

/// The pieces of `scheme://`: the scheme with its colon, then two empty ones.
proof fn lemma_split_scheme(s: Seq<char>, n: int)
    requires
        n >= 3,
        n <= s.len(),
        s[n - 1] == '/',
        s[n - 2] == '/',
        s[n - 3] == ':',
        forall|k: int| 0 <= k < n - 2 ==> s[k] != '/',
    ensures
        split_on(s.take(n), '/').len() == 3,
        split_on(s.take(n), '/')[0] == s.take(n - 2),
        split_on(s.take(n), '/')[1] == Seq::<char>::empty(),
{
    lemma_split_one_piece(s, n - 2);
    let p = s.take(n - 2);
    assert(split_on(p, '/') == seq![p]);
    assert(s.take(n - 1).drop_last() =~= p);
    assert(s.take(n).drop_last() =~= s.take(n - 1));
    assert(split_on(s.take(n - 1), '/') =~= seq![p, Seq::<char>::empty()]);
    assert(split_on(s.take(n), '/') =~= seq![p, Seq::<char>::empty(), Seq::<char>::empty()]);
}

/// A text with no `/` is one piece.
proof fn lemma_split_one_piece(s: Seq<char>, n: int)
    requires
        0 <= n <= s.len(),
        forall|k: int| 0 <= k < n ==> s[k] != '/',
    ensures
        split_on(s.take(n), '/') == seq![s.take(n)],
    decreases n,
{
    if n == 0 {
        assert(s.take(0) =~= Seq::<char>::empty());
        assert(split_on(s.take(0), '/') =~= seq![Seq::<char>::empty()]);
    } else {
        lemma_split_one_piece(s, n - 1);
        assert(s.take(n).drop_last() =~= s.take(n - 1));
        assert(s.take(n).last() == s[n - 1]);
        assert(s[n - 1] != '/');
        assert(s.take(n) =~= s.take(n - 1).push(s[n - 1]));
        assert(split_on(s.take(n), '/') =~= seq![s.take(n)]);
    }
}

/// The host part of a directory that begins with a scheme and `//` begins
/// with that same scheme and `//`.
proof fn lemma_host_prefix_scheme(dir: Seq<char>, n: int)
    requires
        n >= 3,
        n <= dir.len(),
        dir[n - 1] == '/',
        dir[n - 2] == '/',
        dir[n - 3] == ':',
        forall|k: int| 0 <= k < n - 2 ==> dir[k] != '/',
    ensures
        starts_with(host_prefix(dir), dir.take(n)),
{
    lemma_split_scheme(dir, n);
    lemma_split_prefix(dir, n, '/');
    let p = split_on(dir, '/');
    assert(p[0] == dir.take(n - 2));
    assert(p[1] == Seq::<char>::empty());
    assert(p.len() >= 3);
    let h = host_prefix(dir);
    assert(join_host(p, 0) == Seq::<char>::empty());
    assert(join_host(p, 1) == join_host(p, 0) + p[0] + seq!['/']);
    assert(join_host(p, 1) =~= dir.take(n - 2) + seq!['/']);
    assert(join_host(p, 2) == join_host(p, 1) + p[1] + seq!['/']);
    assert(join_host(p, 2) =~= dir.take(n - 2) + seq!['/'] + seq!['/']);
    assert(h == join_host(p, 3));
    assert(join_host(p, 3) == join_host(p, 2) + p[2] + Seq::<char>::empty());
    assert(join_host(p, 3) =~= dir.take(n - 2) + seq!['/'] + seq!['/'] + p[2]);
    assert(h.take(n) =~= dir.take(n));
}

/// A link made absolute against a directory that begins with `http://` or
/// `https://` stays as it is when made absolute again.
pub proof fn law_link_format_stable(dir: Seq<char>, link: Seq<char>)
    requires
        starts_with(dir, lit_http()) || starts_with(dir, lit_https()),
    ensures
        spec_link_format(dir, spec_link_format(dir, link)) == spec_link_format(dir, link),
{
    let r = spec_link_format(dir, link);
    let scheme = if starts_with(dir, lit_http()) { lit_http() } else { lit_https() };
    let n = scheme.len() as int;
    assert(dir.take(n) == scheme);
    assert(forall|k: int| 0 <= k < n ==> dir[k] == dir.take(n)[k]);
    if starts_with(link, lit_http()) || starts_with(link, lit_https()) {
    } else if starts_with(link, seq!['/']) {
        lemma_host_prefix_scheme(dir, n);
        let h = host_prefix(dir);
        assert(r == h + link);
        assert(r.take(n) =~= h.take(n));
    } else {
        assert(r == dir + seq!['/'] + link);
        assert(r.take(n) =~= dir.take(n));
    }
    assert(starts_with(r, lit_http()) || starts_with(r, lit_https()));
}

/// `v` begins with `p`.
fn has_prefix(v: &Vec<char>, p: &Vec<char>) -> (r: bool)
    ensures
        r == starts_with(v@, p@),
{
    if p.len() > v.len() {
        return false;
    }
    let mut i: usize = 0;
    while i < p.len()
        invariant
            p.len() <= v.len(),
            i <= p.len(),
            forall|k: int| 0 <= k < i ==> v@[k] == p@[k],
        decreases p.len() - i,
    {
        if v[i] != p[i] {
            assert(v@.take(p.len() as int)[i as int] != p@[i as int]);
            return false;
        }
        i = i + 1;
    }
    assert(v@.take(p.len() as int) =~= p@);
    true
}

/// The pieces of `s` between the occurrences of `c`.
fn split_chars(s: &Vec<char>, c: char) -> (r: Vec<Vec<char>>)
    ensures
        r@.map_values(|x: Vec<char>| x@) == split_on(s@, c),
{
    let mut r: Vec<Vec<char>> = vec![Vec::new()];
    let mut i: usize = 0;
    assert(s@.take(0) =~= Seq::<char>::empty());
    assert(r@.map_values(|x: Vec<char>| x@) =~= split_on(s@.take(0), c));
    while i < s.len()
        invariant
            i <= s.len(),
            r.len() >= 1,
            r@.map_values(|x: Vec<char>| x@) == split_on(s@.take(i as int), c),
        decreases s.len() - i,
    {
        let ghost rv = r@.map_values(|x: Vec<char>| x@);
        assert(s@.take(i + 1).drop_last() =~= s@.take(i as int));
        if s[i] == c {
            r.push(Vec::new());
            assert(r@.map_values(|x: Vec<char>| x@) =~= rv.push(Seq::empty()));
        } else {
            let mut piece = r.pop().unwrap();
            piece.push(s[i]);
            r.push(piece);
            assert(r@.map_values(|x: Vec<char>| x@) =~= rv.update(rv.len() - 1, rv.last().push(s@[i as int])));
        }
        i = i + 1;
    }
    assert(s@.take(i as int) =~= s@);
    r
}

fn append_chars(out: &mut Vec<char>, v: &Vec<char>)
    ensures
        final(out)@ == old(out)@ + v@,
{
    let mut i: usize = 0;
    while i < v.len()
        invariant
            i <= v.len(),
            out@ == old(out)@ + v@.take(i as int),
        decreases v.len() - i,
    {
        out.push(v[i]);
        i = i + 1;
        assert(out@ =~= old(out)@ + v@.take(i as int));
    }
    assert(v@.take(i as int) =~= v@);
}

/// A parsed rule is either a comment (no selectors, no declarations) or has
/// no comment; every declaration it keeps has a property and a value.
pub open spec fn rule_ok(r: RuleView) -> bool {
    &&& (r.selectors.len() > 0 || r.declarations.len() > 0) ==> r.comment.len() == 0
    &&& forall|k: int|
        0 <= k < r.declarations.len() ==> #[trigger] r.declarations[k].propery.len() > 0
            && r.declarations[k].value.len() > 0
}

pub open spec fn rules_ok(rs: Seq<RuleView>) -> bool {
    forall|i: int| 0 <= i < rs.len() ==> #[trigger] rule_ok(rs[i])
}

pub open spec fn css_inv(st: CssState) -> bool {
    &&& rules_ok(st.rules)
    &&& forall|k: int|
        0 <= k < st.decls.len() ==> #[trigger] st.decls[k].propery.len() > 0 && st.decls[k].value.len()
            > 0
}

proof fn lemma_rules_push(rs: Seq<RuleView>, r: RuleView)
    requires
        rules_ok(rs),
        rule_ok(r),
    ensures
        rules_ok(rs.push(r)),
{
    assert forall|i: int| 0 <= i < rs.push(r).len() implies #[trigger] rule_ok(rs.push(r)[i]) by {
        if i < rs.len() {
            assert(rs.push(r)[i] == rs[i]);
        }
    }
}

proof fn lemma_css_step_ok(st: CssState, c: char)
    requires
        css_inv(st),
    ensures
        css_inv(css_step(st, c)),
{
    if !st.in_comment && ((st.prev_space && c == ' ') || c == '\n') {
    } else if st.in_comment {
        if c == '/' && st.prev_asterisk {
            lemma_rules_push(st.rules, comment_rule(drop_last_if_any(st.comment)));
        }
    } else if c == '*' && st.prev_slash {
    } else if c == '{' {
    } else if c == ';' || c == '}' {
        let d = spec_declaration(st.tmp);
        let decls = if st.tmp.len() > 0 && d.propery.len() > 0 && d.value.len() > 0 {
            st.decls.push(d)
        } else {
            st.decls
        };
        assert forall|k: int| 0 <= k < decls.len() implies #[trigger] decls[k].propery.len() > 0
            && decls[k].value.len() > 0 by {
            if k < st.decls.len() {
                assert(decls[k] == st.decls[k]);
            }
        }
        if c == '}' {
            let sels = if st.stack.len() > 0 {
                st.stack.last().map_values(|s: Seq<char>| spec_handle_selector(s))
            } else {
                Seq::empty()
            };
            let rule = RuleView { selectors: sels, declarations: decls, comment: Seq::empty() };
            if sels.len() > 0 || decls.len() > 0 {
                lemma_rules_push(st.rules, rule);
            }
        }
    } else {
    }
}

proof fn lemma_css_run_ok(s: Seq<char>)
    ensures
        css_inv(css_run(s)),
    decreases s.len(),
{
    if s.len() > 0 {
        lemma_css_run_ok(s.drop_last());
        lemma_css_step_ok(css_run(s.drop_last()), s.last());
    }
}

/// Every rule parsed from stylesheets is either a comment, with no
/// selectors and no declarations, or carries no comment; and every
/// declaration it keeps has a non-empty property and a non-empty value.
pub proof fn law_parsed_rules_complete(strs: Seq<Seq<char>>)
    ensures
        rules_ok(spec_parse_css(strs)),
    decreases strs.len(),
{
    if strs.len() > 0 {
        law_parsed_rules_complete(strs.drop_last());
        lemma_css_run_ok(strs.last());
        let a = spec_parse_css(strs.drop_last());
        let b = css_run(strs.last()).rules;
        assert forall|i: int| 0 <= i < (a + b).len() implies #[trigger] rule_ok((a + b)[i]) by {
            if i < a.len() {
                assert((a + b)[i] == a[i]);
            } else {
                assert((a + b)[i] == b[i - a.len()]);
            }
        }
    }
}

/// Recording the URL of the page: its directory is kept.
pub open spec fn spec_push_original_url(d: CSSDataView, url: Seq<char>) -> CSSDataView {
    CSSDataView { current_dir: spec_dir_of(url), ..d }
}

/// The links made absolute against the directory `dir`.
pub open spec fn spec_format_links(dir: Seq<char>, links: Seq<Seq<char>>) -> Seq<Seq<char>> {
    links.map_values(|l: Seq<char>| spec_link_format(dir, l))
}

/// Recording links: each is made absolute and added after those recorded.
pub open spec fn spec_push_links(d: CSSDataView, links: Seq<Seq<char>>) -> CSSDataView {
    CSSDataView { links: d.links + spec_format_links(d.current_dir, links), ..d }
}

/// Recording the text of a fetched stylesheet, after those recorded.
pub open spec fn spec_push_css_text(d: CSSDataView, css: Seq<char>) -> CSSDataView {
    CSSDataView { css_strs: d.css_strs.push(css), ..d }
}

/// The text of stylesheet `idx`; empty when none is recorded at all.
pub open spec fn spec_get_css_text(d: CSSDataView, idx: int) -> Seq<char> {
    if d.css_strs.len() == 0 {
        Seq::empty()
    } else {
        d.css_strs[idx]
    }
}

/// Reading back a recorded stylesheet text gives that text, and recording
/// one leaves the texts recorded before it as they were.
pub proof fn law_get_after_push(d: CSSDataView, css: Seq<char>, i: int)
    requires
        0 <= i < d.css_strs.len(),
    ensures
        spec_get_css_text(spec_push_css_text(d, css), d.css_strs.len() as int) == css,
        spec_get_css_text(spec_push_css_text(d, css), i) == spec_get_css_text(d, i),
{
}

proof fn lemma_trailing(s: Seq<char>)
    ensures
        trailing_count(s) <= s.len(),
        forall|k: int| s.len() - trailing_count(s) <= k < s.len() ==> s[k] != '/',
        s.contains('/') ==> trailing_count(s) < s.len() && s[s.len() - trailing_count(s) - 1]
            == '/',
    decreases s.len(),
{
    if s.len() > 0 {
        lemma_trailing(s.drop_last());
        if s.last() != '/' {
            assert forall|k: int| s.len() - trailing_count(s) <= k < s.len() implies s[k] != '/' by {
                if k < s.len() - 1 {
                    assert(s[k] == s.drop_last()[k]);
                }
            }
            if s.contains('/') {
                let w = choose|w: int| 0 <= w < s.len() && s[w] == '/';
                assert(s.drop_last()[w] == '/');
                assert(s.drop_last().contains('/'));
                assert(s[s.len() - trailing_count(s) - 1] == s.drop_last()[s.drop_last().len() - trailing_count(s.drop_last()) - 1]);
            }
        }
    }
}

/// A URL holding a `/` is its directory, then a `/`, then a last segment
/// that holds no `/`.
pub proof fn law_dir_of_splits_url(url: Seq<char>)
    requires
        url.contains('/'),
    ensures
        url == spec_dir_of(url) + seq!['/'] + url.skip(url.len() - trailing_count(url)),
        forall|k: int|
            0 <= k < trailing_count(url) ==> #[trigger] url.skip(url.len() - trailing_count(url))[k]
                != '/',
{
    lemma_trailing(url);
    let t = trailing_count(url) as int;
    assert(url =~= spec_dir_of(url) + seq!['/'] + url.skip(url.len() - t));
}

/// Everything a page does with its stylesheets: where it lives, which
/// stylesheets it links, their texts, and their rules.
pub trait HandleCSSData: Sized + View<V = CSSDataView> {
    /// Records the directory of the page's URL. (The length of the segment
    /// being read is counted in an `i32`.)
    fn push_original_url(&mut self, url: String)
        requires
            segments_fit_i32(url@),
        ensures
            final(self)@ == spec_push_original_url(old(self)@, url@),
    ;

    /// Makes each link absolute and records it; returns them in order, for
    /// their stylesheets to be fetched.
    fn push_links(&mut self, links_vec: Vec<String>) -> (formatted: Vec<String>)
        ensures
            strings_view(formatted@) == spec_format_links(old(self)@.current_dir, strings_view(links_vec@)),
            final(self)@ == spec_push_links(old(self)@, strings_view(links_vec@)),
    ;

    /// Records the text of a fetched stylesheet.
    fn push_css_text(&mut self, css_str: String)
        ensures
            final(self)@ == spec_push_css_text(old(self)@, css_str@),
    ;

    /// The text of stylesheet `idx`; empty when there is none at all.
    fn get_css_text(&mut self, idx: usize) -> (r: String)
        requires
            old(self)@.css_strs.len() == 0 || idx < old(self)@.css_strs.len(),
        ensures
            final(self)@ == old(self)@,
            r@ == spec_get_css_text(old(self)@, idx as int),
    ;

    /// A link made absolute against the page's directory.
    fn handle_link_format(&mut self, link: String) -> (r: String)
        ensures
            final(self)@ == old(self)@,
            r@ == spec_link_format(old(self)@.current_dir, link@),
    ;

    /// The rules of all the stylesheets, in order.
    fn parse_css(&mut self) -> (r: Vec<Rule>)
        ensures
            final(self)@ == old(self)@,
            rules_view(r@) == spec_parse_css(old(self)@.css_strs),
    ;
}

impl HandleCSSData for CSSData {
    fn push_original_url(&mut self, url: String) {
        let chars = chars_of(url.as_str());
        let mut count: i32 = 0;
        let mut i: usize = 0;
        assert(chars@.take(0) =~= Seq::<char>::empty());
        while i < chars.len()
            invariant
                chars@ == url@,
                segments_fit_i32(url@),
                i <= chars.len(),
                count as nat == trailing_count(chars@.take(i as int)),
                0 <= count,
            decreases chars.len() - i,
        {
            assert(chars@.take(i + 1).drop_last() =~= chars@.take(i as int));
            assert(trailing_count(url@.take(i + 1)) < i32::MAX);
            if chars[i] == '/' {
                count = 0;
            } else {
                count += 1;
            }
            i = i + 1;
        }
        assert(chars@.take(i as int) =~= chars@);
        assert(trailing_count(url@.take(url@.len() as int)) < i32::MAX);
        let mut cp_url = chars;
        let mut k: i32 = 0;
        while k < count + 1
            invariant
                0 <= k <= count + 1,
                count < i32::MAX,
                cp_url@ == (if k <= url@.len() {
                    url@.take(url@.len() - k)
                } else {
                    Seq::empty()
                }),
            decreases count + 1 - k,
        {
            if cp_url.len() > 0 {
                cp_url.pop();
            }
            k += 1;
            assert(cp_url@ =~= (if k <= url@.len() {
                url@.take(url@.len() - k)
            } else {
                Seq::<char>::empty()
            }));
        }
        self.current_dir = string_of(&cp_url);
    }

    fn push_links(&mut self, links_vec: Vec<String>) -> (formatted: Vec<String>) {
        let ghost dir = self@.current_dir;
        let ghost l0 = self@.links;
        let mut formatted: Vec<String> = Vec::new();
        let mut i: usize = 0;
        while i < links_vec.len()
            invariant
                i <= links_vec.len(),
                formatted@.len() == i,
                self@.current_dir == dir,
                self@.css_strs == old(self)@.css_strs,
                forall|j: int| 0 <= j < i ==> #[trigger] formatted@[j]@ == spec_link_format(dir, links_vec@[j]@),
                self@.links == l0 + strings_view(formatted@),
            decreases links_vec.len() - i,
        {
            let format_link = self.handle_link_format(links_vec[i].clone());
            let ghost fv = strings_view(formatted@);
            let ghost lv = self@.links;
            self.links.push(format_link.clone());
            formatted.push(format_link);
            assert(strings_view(formatted@) =~= fv.push(formatted@[i as int]@));
            assert(self@.links =~= lv.push(formatted@[i as int]@));
            assert(self@.links =~= l0 + strings_view(formatted@));
            i = i + 1;
        }
        assert(strings_view(formatted@) =~= spec_format_links(dir, strings_view(links_vec@)));
        assert(self@ =~= spec_push_links(old(self)@, strings_view(links_vec@)));
        formatted
    }

    fn push_css_text(&mut self, css_str: String) {
        let ghost cv = self@.css_strs;
        self.css_strs.push(css_str);
        assert(self@.css_strs =~= cv.push(css_str@));
    }

    fn get_css_text(&mut self, idx: usize) -> (r: String) {
        if self.css_strs.len() == 0 {
            return String::new();
        }
        self.css_strs[idx].clone()
    }

    fn handle_link_format(&mut self, link: String) -> (r: String) {
        let lc = chars_of(link.as_str());
        let http = vec!['h', 't', 't', 'p', ':', '/', '/'];
        let https = vec!['h', 't', 't', 'p', 's', ':', '/', '/'];
        let slash = vec!['/'];
        assert(http@ =~= lit_http());
        assert(https@ =~= lit_https());
        assert(slash@ =~= seq!['/']);
        if has_prefix(&lc, &http) || has_prefix(&lc, &https) {
            link.clone()
        } else if has_prefix(&lc, &slash) {
            let dir = chars_of(self.current_dir.as_str());
            let pieces = split_chars(&dir, '/');
            let ghost pv = pieces@.map_values(|x: Vec<char>| x@);
            proof {
                lemma_split_nonempty(dir@, '/');
            }
            let mut result: Vec<char> = Vec::new();
            let mut idx: usize = 0;
            while idx < pieces.len() && idx < 3
                invariant
                    pv == pieces@.map_values(|x: Vec<char>| x@),
                    pv == split_on(dir@, '/'),
                    idx <= pieces.len(),
                    idx <= 3,
                    result@ == join_host(pv, idx as nat),
                decreases pieces.len() - idx,
            {
                append_chars(&mut result, &pieces[idx]);
                if idx != 2 {
                    result.push('/');
                }
                idx += 1;
                assert(result@ =~= join_host(pv, idx as nat));
            }
            assert(idx as nat == (if pv.len() < 3 { pv.len() } else { 3 }));
            append_chars(&mut result, &lc);
            string_of(&result)
        } else {
            let mut result = chars_of(self.current_dir.as_str());
            result.push('/');
            append_chars(&mut result, &lc);
            string_of(&result)
        }
    }

    fn parse_css(&mut self) -> (r: Vec<Rule>) {
        parse_all(&self.css_strs)
    }
}

} // verus!
