use vstd::prelude::*;

use crate::error::ParseError;
use crate::text::{
    chars_of, join_with, lemma_join_split, lemma_split_free, lemma_split_three, split, split_chars,
    string_of, views,
};

verus! {

/// A parcel's print-key code: section, block and lot, each kept verbatim as written.
#[derive(Debug, Clone, Hash)]
pub enum PrintKeyCode {
    All { section: String, block: String, lot: String },
}

impl View for PrintKeyCode {
    type V = (Seq<char>, Seq<char>, Seq<char>);

    open spec fn view(&self) -> (Seq<char>, Seq<char>, Seq<char>) {
        match self {
            PrintKeyCode::All { section, block, lot } => (section@, block@, lot@),
        }
    }
}

impl PartialEq for PrintKeyCode {
    fn eq(&self, o: &PrintKeyCode) -> (r: bool) {
        let r = self.section().eq(o.section()) && self.block().eq(o.block()) && self.lot().eq(
            o.lot(),
        );
        proof {
            if r {
                assert(self@ == o@);
            }
        }
        r
    }
}

impl vstd::std_specs::cmp::PartialEqSpecImpl for PrintKeyCode {
    open spec fn obeys_eq_spec() -> bool {
        true
    }

    open spec fn eq_spec(&self, o: &PrintKeyCode) -> bool {
        self@ == o@
    }
}

impl Eq for PrintKeyCode {}

impl PrintKeyCode {
    /// The section component.
    pub fn section(&self) -> (r: &String)
        ensures
            r@ == self@.0,
    {
        match self {
            PrintKeyCode::All { section, .. } => section,
        }
    }

    /// The block component.
    pub fn block(&self) -> (r: &String)
        ensures
            r@ == self@.1,
    {
        match self {
            PrintKeyCode::All { block, .. } => block,
        }
    }

    /// The lot component.
    pub fn lot(&self) -> (r: &String)
        ensures
            r@ == self@.2,
    {
        match self {
            PrintKeyCode::All { lot, .. } => lot,
        }
    }
}

/// A character allowed inside a component: an ASCII digit or a dot.
pub open spec fn is_key_char(c: char) -> bool {
    ('0' <= c && c <= '9') || c == '.'
}

/// One or more digits and dots.
pub open spec fn is_component(s: Seq<char>) -> bool {
    s.len() > 0 && forall|i: int| 0 <= i < s.len() ==> is_key_char(#[trigger] s[i])
}

/// Text of the form `<component>-<component>-<component>`, with nothing else in it.
pub open spec fn is_key_text(s: Seq<char>) -> bool {
    let p = split(s, '-');
    p.len() == 3 && is_component(p[0]) && is_component(p[1]) && is_component(p[2])
}

/// The key that well-formed key text denotes: its three dash-separated pieces.
pub open spec fn key_of(s: Seq<char>) -> (Seq<char>, Seq<char>, Seq<char>) {
    let p = split(s, '-');
    (p[0], p[1], p[2])
}

/// Any three components written with a dash between each two are key text, and
/// denote exactly those three components, unchanged.
pub proof fn lemma_components_parse(a: Seq<char>, b: Seq<char>, c: Seq<char>)
    requires
        is_component(a),
        is_component(b),
        is_component(c),
    ensures
        is_key_text(a + seq!['-'] + b + seq!['-'] + c),
        key_of(a + seq!['-'] + b + seq!['-'] + c) == (a, b, c),
{
    assert forall|i: int| 0 <= i < a.len() implies a[i] != '-' by {
        assert(is_key_char(a[i]));
    }
    assert forall|i: int| 0 <= i < b.len() implies b[i] != '-' by {
        assert(is_key_char(b[i]));
    }
    assert forall|i: int| 0 <= i < c.len() implies c[i] != '-' by {
        assert(is_key_char(c[i]));
    }
    lemma_split_three(a, b, c, '-');
}

/// Text is not key text when it has no dash, when it does not cut into exactly
/// three pieces at dashes, or when it holds a character other than a dash, an
/// ASCII digit or a dot.
pub proof fn lemma_malformed_inputs(s: Seq<char>)
    ensures
        (forall|i: int| 0 <= i < s.len() ==> s[i] != '-') ==> !is_key_text(s),
        split(s, '-').len() != 3 ==> !is_key_text(s),
        (exists|i: int| 0 <= i < s.len() && s[i] != '-' && !is_key_char(#[trigger] s[i])) ==> !is_key_text(s),
{
    if forall|i: int| 0 <= i < s.len() ==> s[i] != '-' {
        lemma_split_free(s, '-');
    }
    if is_key_text(s) {
        let p = split(s, '-');
        lemma_join_split(s, '-');
        let first_two = p.drop_last();
        assert(first_two.drop_last() =~= seq![p[0]]);
        assert(join_with(first_two.drop_last(), '-') == p[0]);
        assert(first_two.last() == p[1]);
        assert(join_with(first_two, '-') == join_with(first_two.drop_last(), '-') + seq!['-'] + first_two.last());
        assert(join_with(p, '-') == join_with(first_two, '-') + seq!['-'] + p.last());
        assert(p.last() == p[2]);
        assert(s == p[0] + seq!['-'] + p[1] + seq!['-'] + p[2]);
        assert forall|i: int| 0 <= i < s.len() && s[i] != '-' implies is_key_char(#[trigger] s[i]) by {
            let n0 = p[0].len() as int;
            let n1 = p[1].len() as int;
            if i < n0 {
                assert(s[i] == p[0][i]);
            } else if i == n0 {
            } else if i < n0 + 1 + n1 {
                assert(s[i] == p[1][i - n0 - 1]);
            } else if i == n0 + 1 + n1 {
            } else {
                assert(s[i] == p[2][i - n0 - n1 - 2]);
            }
        }
    }
}

fn is_component_chars(v: &Vec<char>) -> (r: bool)
    ensures
        r == is_component(v@),
{
    if v.len() == 0 {
        return false;
    }
    let mut i: usize = 0;
    while i < v.len()
        invariant
            i <= v@.len(),
            forall|k: int| 0 <= k < i ==> is_key_char(#[trigger] v@[k]),
        decreases v.len() - i,
    {
        let c = v[i];
        if !(('0' <= c && c <= '9') || c == '.') {
            return false;
        }
        i = i + 1;
    }
    true
}

/// Parses key text given as characters; the error carries the text unchanged.
pub fn parse_key_code_chars(v: &Vec<char>) -> (r: Result<PrintKeyCode, ParseError>)
    ensures
        match r {
            Ok(k) => is_key_text(v@) && k@ == key_of(v@),
            Err(e) => !is_key_text(v@) && e@ == crate::error::ErrorView::Malformed(v@),
        },
{
    let parts = split_chars(v, '-');
    proof {
        assert(views(parts@).len() == parts@.len());
    }
    if parts.len() == 3 && is_component_chars(&parts[0]) && is_component_chars(&parts[1])
        && is_component_chars(&parts[2]) {
        proof {
            assert(views(parts@)[0] == parts@[0]@);
            assert(views(parts@)[1] == parts@[1]@);
            assert(views(parts@)[2] == parts@[2]@);
        }
        Ok(
            PrintKeyCode::All {
                section: string_of(&parts[0]),
                block: string_of(&parts[1]),
                lot: string_of(&parts[2]),
            },
        )
    } else {
        proof {
            if parts@.len() == 3 {
                assert(views(parts@)[0] == parts@[0]@);
                assert(views(parts@)[1] == parts@[1]@);
                assert(views(parts@)[2] == parts@[2]@);
            }
        }
        Err(ParseError::MalformedKeyCode { text: string_of(v) })
    }
}

/// Parses `<section>-<block>-<lot>`, each component one or more ASCII digits or
/// dots, the whole input and nothing else; components are kept verbatim.
pub fn parse_print_key_code(input: &str) -> (r: Result<PrintKeyCode, ParseError>)
    ensures
        match r {
            Ok(k) => is_key_text(input@) && k@ == key_of(input@),
            Err(e) => !is_key_text(input@) && e@ == crate::error::ErrorView::Malformed(input@),
        },
{
    let v = chars_of(input);
    parse_key_code_chars(&v)
}

} // verus!
