//! Tokens and the lexical categories of characters.
use vstd::prelude::*;

verus! {

/// The lexical category of a token.
#[derive(Debug, Clone, Copy, PartialEq, Eq, Structural)]
pub enum TokenCategory {
    Constant,
    Variable,
    Operator,
    /// `true` for an opening parenthesis, `false` for a closing one.
    Parenthesis(bool),
}

/// A token: its category and its text.
#[derive(Debug)]
pub struct Token {
    pub token_type: TokenCategory,
    pub token: String,
}

/// The category of a single character, if it has one.
pub open spec fn char_category(c: char) -> Option<TokenCategory> {
    if ('0' <= c && c <= '9') || c == '.' {
        Some(TokenCategory::Constant)
    } else if ('a' <= c && c <= 'z') || ('A' <= c && c <= 'Z') {
        Some(TokenCategory::Variable)
    } else if c == '+' || c == '-' || c == '*' || c == '/' || c == '^' || c == '=' {
        Some(TokenCategory::Operator)
    } else if c == '(' || c == ')' {
        Some(TokenCategory::Parenthesis(c == '('))
    } else {
        None
    }
}

/// The categories of characters: the decimal digits and the point are constants, the ASCII
/// letters variables, `+ - * / ^ =` operators, and the two parentheses parentheses (opening
/// or closing); every other character, the space among them, has none.
pub proof fn lemma_character_categories(c: char)
    ensures
        ('0' <= c && c <= '9') || c == '.' ==> char_category(c) == Some(TokenCategory::Constant),
        ('a' <= c && c <= 'z') || ('A' <= c && c <= 'Z') ==> char_category(c) == Some(
            TokenCategory::Variable,
        ),
        c == '+' || c == '-' || c == '*' || c == '/' || c == '^' || c == '=' ==> char_category(c)
            == Some(TokenCategory::Operator),
        c == '(' ==> char_category(c) == Some(TokenCategory::Parenthesis(true)),
        c == ')' ==> char_category(c) == Some(TokenCategory::Parenthesis(false)),
        !(('0' <= c && c <= '9') || c == '.' || ('a' <= c && c <= 'z') || ('A' <= c && c <= 'Z')
            || c == '+' || c == '-' || c == '*' || c == '/' || c == '^' || c == '=' || c == '('
            || c == ')') ==> char_category(c) is None,
{
}

/// Reading a run of digits and points as a constant takes the whole run.
proof fn lemma_scan_number(s: Seq<char>)
    requires
        forall|i: int| 0 <= i < s.len() ==> ('0' <= #[trigger] s[i] && s[i] <= '9') || s[i] == '.',
    ensures
        scan_token(TokenCategory::Constant, s) == (s, s.len()),
    decreases s.len(),
{
    if s.len() > 0 {
        lemma_scan_number(s.drop_first());
        assert(seq![s[0]] + s.drop_first() =~= s);
    }
}

/// A number, a non-empty run of decimal digits and points, is read as one constant token
/// holding all of it.
pub proof fn lemma_number_is_one_token(s: Seq<char>)
    requires
        s.len() > 0,
        forall|i: int| 0 <= i < s.len() ==> ('0' <= #[trigger] s[i] && s[i] <= '9') || s[i] == '.',
    ensures
        tokens_of(s) == seq![(TokenCategory::Constant, s)],
{
    assert(('0' <= s[0] && s[0] <= '9') || s[0] == '.');
    lemma_scan_number(s);
    assert(tokens_of(s.skip(s.len() as int)) =~= Seq::<(TokenCategory, Seq<char>)>::empty()) by {
        assert(s.skip(s.len() as int).len() == 0);
    }
    assert(seq![(TokenCategory::Constant, s)] + Seq::<(TokenCategory, Seq<char>)>::empty() =~= seq![
        (TokenCategory::Constant, s),
    ]);
}

/// Returns the category of a character; spaces and unknown characters have none.
pub fn get_token_category_of_character(c: &char) -> (r: Option<TokenCategory>)
    ensures
        r == char_category(*c),
{
    let c = *c;
    if ('0' <= c && c <= '9') || c == '.' {
        Some(TokenCategory::Constant)
    } else if ('a' <= c && c <= 'z') || ('A' <= c && c <= 'Z') {
        Some(TokenCategory::Variable)
    } else if c == '+' || c == '-' || c == '*' || c == '/' || c == '^' || c == '=' {
        Some(TokenCategory::Operator)
    } else if c == '(' || c == ')' {
        Some(TokenCategory::Parenthesis(c == '('))
    } else {
        None
    }
}


impl View for Token {
    type V = (TokenCategory, Seq<char>);

    open spec fn view(&self) -> (TokenCategory, Seq<char>) {
        (self.token_type, self.token@)
    }
}

/// Whether two categories are the same kind, ignoring which way a parenthesis faces.
pub open spec fn same_kind(a: TokenCategory, b: TokenCategory) -> bool {
    match (a, b) {
        (TokenCategory::Parenthesis(_), TokenCategory::Parenthesis(_)) => true,
        _ => a == b,
    }
}

/// Whether tokens of this category are always one character long.
pub open spec fn single_char_category(c: TokenCategory) -> bool {
    c == TokenCategory::Variable || c == TokenCategory::Operator
}

/// The category of the first character of `s` that has one.
pub open spec fn first_category(s: Seq<char>) -> Option<TokenCategory>
    decreases s.len(),
{
    if s.len() == 0 {
        None
    } else if char_category(s[0]) is Some {
        char_category(s[0])
    } else {
        first_category(s.drop_first())
    }
}

/// Reading a token of category `cat` from the front of `s`: its text, and how many
/// characters of `s` it takes up. Characters without a category are skipped over;
/// the token ends before the first character of another kind, and a variable or an
/// operator is one character long.
pub open spec fn scan_token(cat: TokenCategory, s: Seq<char>) -> (Seq<char>, nat)
    decreases s.len(),
{
    if s.len() == 0 {
        (Seq::empty(), 0)
    } else {
        match char_category(s[0]) {
            None => {
                let (t, e) = scan_token(cat, s.drop_first());
                (t, e + 1)
            },
            Some(x) => {
                if !same_kind(x, cat) {
                    (Seq::empty(), 0)
                } else if single_char_category(cat) {
                    (seq![s[0]], 1)
                } else {
                    let (t, e) = scan_token(cat, s.drop_first());
                    (seq![s[0]] + t, e + 1)
                }
            },
        }
    }
}

/// The first character of `s` that is not a carriage return.
pub open spec fn first_non_cr(s: Seq<char>) -> Option<char>
    decreases s.len(),
{
    if s.len() == 0 {
        None
    } else if s[0] != '\r' {
        Some(s[0])
    } else {
        first_non_cr(s.drop_first())
    }
}

/// `String::push`: appends the character to the end of the string.
#[verifier::external_body]
pub(crate) fn push_char(s: &mut String, c: char)
    ensures
        final(s)@ == old(s)@.push(c),
{
    s.push(c);
}

/// Returns the category of the first character of `slice` that has one.
pub fn get_token_category(slice: &str) -> (r: Option<TokenCategory>)
    ensures
        r == first_category(slice@),
{
    let n = slice.unicode_len();
    let mut i: usize = 0;
    assert(slice@.skip(0) =~= slice@);
    while i < n
        invariant
            n == slice@.len(),
            i <= n,
            first_category(slice@) == first_category(slice@.skip(i as int)),
        decreases n - i,
    {
        let c = slice.get_char(i);
        let option = get_token_category_of_character(&c);
        assert(slice@.skip(i as int)[0] == c);
        assert(slice@.skip(i as int).drop_first() =~= slice@.skip(i + 1));
        if option.is_some() {
            return option;
        }
        i = i + 1;
    }
    assert(slice@.skip(i as int).len() == 0);
    None
}

/// Returns the first character of `input` that is not a carriage return.
pub fn get_first_char(input: &String) -> (r: Option<char>)
    ensures
        r == first_non_cr(input@),
{
    let s = input.as_str();
    let n = s.unicode_len();
    let mut i: usize = 0;
    assert(input@.skip(0) =~= input@);
    while i < n
        invariant
            n == input@.len(),
            s@ == input@,
            i <= n,
            first_non_cr(input@) == first_non_cr(input@.skip(i as int)),
        decreases n - i,
    {
        let c = s.get_char(i);
        assert(input@.skip(i as int)[0] == c);
        assert(input@.skip(i as int).drop_first() =~= input@.skip(i + 1));
        if c != '\r' {
            return Some(c);
        }
        i = i + 1;
    }
    assert(input@.skip(i as int).len() == 0);
    None
}

/// Reads one token of the given category from the front of `data`, and returns it
/// with the rest of `data`. The rest starts after the characters that the token took up
/// (see `scan_token`), counted as characters, not bytes, so that a character of several
/// bytes in the input is never cut in two.
pub fn build_token_of_type(category: TokenCategory, data: &str) -> (r: (Token, &str))
    ensures
        r.0.token_type == category,
        r.0.token@ == scan_token(category, data@).0,
        scan_token(category, data@).1 <= data@.len(),
        r.1@ == data@.skip(scan_token(category, data@).1 as int),
{
    let mut token_string = String::new();
    let mut end_of_current_token: usize = 0;
    let n = data.unicode_len();
    let ghost s = data@;
    assert(s.skip(0) =~= s);
    assert(token_string@ + scan_token(category, s).0 =~= scan_token(category, s).0);
    while end_of_current_token < n
        invariant_except_break
            n == s.len(),
            s == data@,
            end_of_current_token <= n,
            token_string@ + scan_token(category, s.skip(end_of_current_token as int)).0
                == scan_token(category, s).0,
            end_of_current_token + scan_token(category, s.skip(end_of_current_token as int)).1
                == scan_token(category, s).1,
        ensures
            end_of_current_token <= n,
            token_string@ == scan_token(category, s).0,
            end_of_current_token == scan_token(category, s).1,
        decreases n - end_of_current_token,
    {
        let c = data.get_char(end_of_current_token);
        let ghost rest = s.skip(end_of_current_token as int);
        assert(rest[0] == c);
        assert(rest.drop_first() =~= s.skip(end_of_current_token + 1));
        if let Some(x) = get_token_category_of_character(&c) {
            let same = match (x, category) {
                (TokenCategory::Parenthesis(_), TokenCategory::Parenthesis(_)) => true,
                _ => x == category,
            };
            if !same {
                break;
            }
            push_char(&mut token_string, c);
            if category == TokenCategory::Variable || category == TokenCategory::Operator {
                end_of_current_token = end_of_current_token + 1;
                assert(token_string@ =~= scan_token(category, s).0) by {
                    assert(token_string@ =~= token_string@ + Seq::<char>::empty());
                }
                break;
            }
            assert(token_string@ + scan_token(category, s.skip(end_of_current_token + 1)).0
                =~= (token_string@.drop_last() + (seq![c] + scan_token(category, s.skip(end_of_current_token + 1)).0)));
        }
        end_of_current_token = end_of_current_token + 1;
    }
    if end_of_current_token == n {
        assert(s.skip(n as int).len() == 0);
        assert(token_string@ =~= token_string@ + Seq::<char>::empty());
    }
    let rest = data.substring_char(end_of_current_token, n);
    assert(rest@ =~= s.skip(end_of_current_token as int));
    (Token { token_type: category, token: token_string }, rest)
}


/// The views of a sequence of tokens.
pub open spec fn token_views(ts: Seq<Token>) -> Seq<(TokenCategory, Seq<char>)> {
    ts.map_values(|t: Token| t@)
}

/// The tokens that reading `s` from start to end produces.
pub open spec fn tokens_of(s: Seq<char>) -> Seq<(TokenCategory, Seq<char>)>
    decreases s.len(),
{
    match first_category(s) {
        None => Seq::empty(),
        Some(cat) => {
            let (t, e) = scan_token(cat, s);
            if 0 < e && e <= s.len() {
                seq![(cat, t)] + tokens_of(s.skip(e as int))
            } else {
                Seq::empty()
            }
        },
    }
}

/// The characters of `s` that have a category, in order.
pub open spec fn categorized(s: Seq<char>) -> Seq<char>
    decreases s.len(),
{
    if s.len() == 0 {
        Seq::empty()
    } else if char_category(s[0]) is Some {
        seq![s[0]] + categorized(s.drop_first())
    } else {
        categorized(s.drop_first())
    }
}

/// The texts of a sequence of tokens, joined.
pub open spec fn joined_texts(ts: Seq<(TokenCategory, Seq<char>)>) -> Seq<char>
    decreases ts.len(),
{
    if ts.len() == 0 {
        Seq::empty()
    } else {
        ts[0].1 + joined_texts(ts.drop_first())
    }
}

/// Whether a token view is well-formed: non-empty, every character of the token's kind,
/// and one character long for variables and operators.
pub open spec fn well_formed_token(t: (TokenCategory, Seq<char>)) -> bool {
    &&& t.1.len() > 0
    &&& forall|i: int| 0 <= i < t.1.len() ==> (#[trigger] char_category(t.1[i]) matches Some(
        k,
    ) && same_kind(k, t.0))
    &&& single_char_category(t.0) ==> t.1.len() == 1
}

proof fn lemma_scan_bounds(cat: TokenCategory, s: Seq<char>)
    ensures
        scan_token(cat, s).1 <= s.len(),
        first_category(s) == Some(cat) ==> scan_token(cat, s).1 > 0,
        scan_token(cat, s).0 == categorized(s.take(scan_token(cat, s).1 as int)),
        forall|i: int|
            0 <= i < scan_token(cat, s).0.len() ==> (#[trigger] char_category(
                scan_token(cat, s).0[i],
            ) matches Some(k) && same_kind(k, cat)),
        first_category(s) == Some(cat) ==> scan_token(cat, s).0.len() > 0,
        single_char_category(cat) ==> scan_token(cat, s).0.len() <= 1,
    decreases s.len(),
{
    if s.len() == 0 {
        assert(s.take(0) =~= Seq::<char>::empty());
    } else {
        let (t, e) = scan_token(cat, s);
        lemma_scan_bounds(cat, s.drop_first());
        let (t1, e1) = scan_token(cat, s.drop_first());
        match char_category(s[0]) {
            None => {
                assert(s.take(e as int).drop_first() =~= s.drop_first().take(e1 as int));
            },
            Some(x) => {
                if !same_kind(x, cat) {
                    assert(s.take(0) =~= Seq::<char>::empty());
                } else if single_char_category(cat) {
                    assert(s.take(1).drop_first() =~= Seq::<char>::empty());
                    assert(categorized(s.take(1)) =~= seq![s[0]] + categorized(s.take(1).drop_first()));
                } else {
                    assert(s.take(e as int).drop_first() =~= s.drop_first().take(e1 as int));
                    assert forall|i: int| 0 <= i < t.len() implies (#[trigger] char_category(t[i]) matches Some(
                        k,
                    ) && same_kind(k, cat)) by {
                        if i > 0 {
                            assert(t[i] == t1[i - 1]);
                        }
                    }
                }
            },
        }
    }
}

proof fn lemma_categorized_append(a: Seq<char>, b: Seq<char>)
    ensures
        categorized(a + b) == categorized(a) + categorized(b),
    decreases a.len(),
{
    if a.len() == 0 {
        assert(a + b =~= b);
    } else {
        lemma_categorized_append(a.drop_first(), b);
        assert((a + b).drop_first() =~= a.drop_first() + b);
        assert((a + b)[0] == a[0]);
    }
}

/// Reading `s` into tokens loses only the characters that have no category, and keeps
/// the order of the others: the tokens' texts, joined, are the categorized characters
/// of `s`. Every token is well-formed.
pub proof fn lemma_tokens_cover_input(s: Seq<char>)
    ensures
        joined_texts(tokens_of(s)) == categorized(s),
        forall|i: int| 0 <= i < tokens_of(s).len() ==> well_formed_token(#[trigger] tokens_of(s)[i]),
    decreases s.len(),
{
    match first_category(s) {
        None => {
            lemma_no_category(s);
        },
        Some(cat) => {
            lemma_scan_bounds(cat, s);
            let (t, e) = scan_token(cat, s);
            let rest = s.skip(e as int);
            lemma_tokens_cover_input(rest);
            lemma_categorized_append(s.take(e as int), rest);
            assert(s.take(e as int) + rest =~= s);
            let ts = tokens_of(s);
            assert(ts.drop_first() =~= tokens_of(rest));
            assert forall|i: int| 0 <= i < ts.len() implies well_formed_token(#[trigger] ts[i]) by {
                if i > 0 {
                    assert(ts[i] == tokens_of(rest)[i - 1]);
                }
            }
        },
    }
}

proof fn lemma_no_category(s: Seq<char>)
    requires
        first_category(s) is None,
    ensures
        categorized(s) == Seq::<char>::empty(),
    decreases s.len(),
{
    if s.len() > 0 {
        lemma_no_category(s.drop_first());
    }
}

/// Splits the whole of `input` into tokens, from left to right, skipping the characters
/// that have no category.
pub fn tokenize(input: &str) -> (tokens: Vec<Token>)
    ensures
        token_views(tokens@) == tokens_of(input@),
{
    let mut tokens: Vec<Token> = Vec::new();
    let mut rest: &str = input;
    assert(token_views(tokens@) + tokens_of(rest@) =~= tokens_of(input@));
    loop
        invariant
            token_views(tokens@) + tokens_of(rest@) == tokens_of(input@),
        decreases rest@.len(),
    {
        match get_token_category(rest) {
            None => {
                assert(token_views(tokens@) + tokens_of(rest@) =~= token_views(tokens@));
                return tokens;
            },
            Some(category) => {
                proof {
                    lemma_scan_bounds(category, rest@);
                }
                let ghost old_rest = rest@;
                let (current_token, remaining) = build_token_of_type(category, rest);
                let ghost old_tokens = tokens@;
                tokens.push(current_token);
                rest = remaining;
                assert(token_views(tokens@) =~= token_views(old_tokens).push(
                    (category, scan_token(category, old_rest).0),
                ));
                assert(token_views(tokens@) + tokens_of(rest@) =~= token_views(old_tokens)
                    + tokens_of(old_rest));
            },
        }
    }
}


/// Whether the character has the Unicode `White_Space` property, the whitespace of
/// `char::is_whitespace`: tab, line feed, vertical tab, form feed, carriage return, space,
/// next line, no-break space, ogham space mark, the spaces from en quad to hair space, line
/// separator, paragraph separator, narrow no-break space, medium mathematical space and
/// ideographic space.
pub open spec fn unicode_whitespace(c: char) -> bool {
    let v = c as u32;
    ||| 0x9 <= v <= 0xd
    ||| v == 0x20
    ||| v == 0x85
    ||| v == 0xa0
    ||| v == 0x1680
    ||| 0x2000 <= v <= 0x200a
    ||| v == 0x2028
    ||| v == 0x2029
    ||| v == 0x202f
    ||| v == 0x205f
    ||| v == 0x3000
}

/// Whether the character is whitespace.
pub fn is_whitespace_char(c: char) -> (r: bool)
    ensures
        r == unicode_whitespace(c),
{
    let v = c as u32;
    (0x9 <= v && v <= 0xd) || v == 0x20 || v == 0x85 || v == 0xa0 || v == 0x1680 || (0x2000 <= v
        && v <= 0x200a) || v == 0x2028 || v == 0x2029 || v == 0x202f || v == 0x205f || v == 0x3000
}

/// The characters of `s` that are not whitespace, in order.
pub open spec fn without_whitespace(s: Seq<char>) -> Seq<char>
    decreases s.len(),
{
    if s.len() == 0 {
        Seq::empty()
    } else if unicode_whitespace(s.last()) {
        without_whitespace(s.drop_last())
    } else {
        without_whitespace(s.drop_last()).push(s.last())
    }
}

/// Returns the input without its whitespace.
pub fn remove_whitespace(input: &str) -> (r: String)
    ensures
        r@ == without_whitespace(input@),
{
    let mut result = String::new();
    let n = input.unicode_len();
    let mut i: usize = 0;
    assert(input@.take(0) =~= Seq::<char>::empty());
    while i < n
        invariant
            n == input@.len(),
            i <= n,
            result@ == without_whitespace(input@.take(i as int)),
        decreases n - i,
    {
        let c = input.get_char(i);
        assert(input@.take(i + 1).drop_last() =~= input@.take(i as int));
        assert(input@.take(i + 1).last() == c);
        if !is_whitespace_char(c) {
            push_char(&mut result, c);
        }
        i = i + 1;
    }
    assert(input@.take(n as int) =~= input@);
    result
}

} // verus!
