//! Checking that an input is a well-formed expression before it is parsed.
use vstd::prelude::*;

verus! {

/// How deep `s` leaves the nesting of parentheses: the opening ones less the closing ones.
pub open spec fn paren_depth(s: Seq<char>) -> int
    decreases s.len(),
{
    if s.len() == 0 {
        0
    } else {
        paren_depth(s.drop_last()) + if s.last() == '(' {
            1int
        } else if s.last() == ')' {
            -1int
        } else {
            0int
        }
    }
}

/// Whether the parentheses of `s` are balanced: no prefix closes more than it opened, and
/// the whole closes all it opened.
pub open spec fn balanced(s: Seq<char>) -> bool {
    &&& forall|k: int| 0 <= k <= s.len() ==> paren_depth(#[trigger] s.take(k)) >= 0
    &&& paren_depth(s) == 0
}

/// Whether the parentheses of the input are balanced.
pub fn validate_parenthesis(input: &str) -> (r: bool)
    ensures
        r == balanced(input@),
{
    let mut number: usize = 0;
    let n = input.unicode_len();
    let mut i: usize = 0;
    assert(input@.take(0) =~= Seq::<char>::empty());
    while i < n
        invariant
            n == input@.len(),
            i <= n,
            number == paren_depth(input@.take(i as int)),
            number <= i,
            forall|k: int| 0 <= k <= i ==> paren_depth(#[trigger] input@.take(k)) >= 0,
        decreases n - i,
    {
        let x = input.get_char(i);
        assert(input@.take(i + 1).drop_last() =~= input@.take(i as int));
        if x == '(' {
            number = number + 1;
        } else if x == ')' {
            if number == 0 {
                assert(paren_depth(input@.take(i + 1)) < 0);
                return false;
            }
            number = number - 1;
        }
        i = i + 1;
    }
    assert(input@.take(n as int) =~= input@);
    number == 0
}

#[verifier::external_type_specification]
#[verifier::external_body]
pub struct ExRegexError(regex::Error);

/// Whether the regular expression `pattern`, compiled by the `regex` crate with its default
/// settings, matches somewhere in `haystack`.
pub uninterp spec fn regex_is_match(pattern: Seq<char>, haystack: Seq<char>) -> bool;

/// Whether `regex::Regex::new`, with its default settings, accepts the pattern: it is valid
/// syntax and its compiled form stays within the default size limits.
pub uninterp spec fn regex_compiles(pattern: Seq<char>) -> bool;

/// Compiles the pattern with `regex::Regex::new` and asks the result, with
/// `regex::Regex::is_match`, whether it matches somewhere in the haystack. The claims are that
/// whether compiling succeeds depends on the pattern alone (named `regex_compiles`), and that
/// the answer depends on the pattern and the haystack alone (named `regex_is_match`).
#[verifier::external_body]
fn match_pattern(pattern: &str, haystack: &str) -> (r: Result<bool, regex::Error>)
    ensures
        r is Ok <==> regex_compiles(pattern@),
        r matches Ok(b) ==> b == regex_is_match(pattern@, haystack@),
{
    match regex::Regex::new(pattern) {
        Ok(compiled) => Ok(compiled.is_match(haystack)),
        Err(e) => Err(e),
    }
}

/// The patterns that a well-formed expression must not match: empty parentheses, a character
/// that is not allowed, two operators in a row, an operator just inside an opening
/// parenthesis, two numbers or names separated only by spaces, a comparison at the end, and
/// a comparison at the start.
pub open spec fn validation_patterns() -> Seq<Seq<char>> {
    seq![
        "\\( *\\)"@,
        "[^a-z A-Z0-9.+\\-*/^()=<>]"@,
        "[+\\-*/^]{2}"@,
        "\\([+\\-*/^]"@,
        "[a-z A-Z0-9.] +[a-z A-Z0-9.]"@,
        "[a-z A-Z0-9.+\\-*/^()]+[=><]$"@,
        "^[=><][a-zA-Z0-9.+\\-*/^()]+"@,
    ]
}

/// Why validation could not be carried out.
#[derive(Debug, Clone, Copy, PartialEq, Eq, Structural)]
pub enum ValidationError {
    /// The validation pattern at this position did not compile.
    InvalidRule(usize),
}

/// The verdict on an input, given which of the validation patterns match it: well-formed when
/// none does and its parentheses are balanced.
pub fn verdict_from_matches(matches: &Vec<bool>, input: &str) -> (r: bool)
    ensures
        r == ((forall|k: int| 0 <= k < matches@.len() ==> !#[trigger] matches@[k]) && balanced(
            input@,
        )),
{
    let mut k: usize = 0;
    while k < matches.len()
        invariant
            k <= matches.len(),
            forall|j: int| 0 <= j < k ==> !#[trigger] matches@[j],
        decreases matches.len() - k,
    {
        if matches[k] {
            return false;
        }
        k = k + 1;
    }
    validate_parenthesis(input)
}

/// Whether the input is a well-formed expression: no validation pattern matches it (see
/// `validation_patterns`), and its parentheses are balanced. Validation is carried out when
/// every pattern compiles; otherwise the error names the first one that does not.
pub fn validate_expression(input: &str) -> (r: Result<bool, ValidationError>)
    ensures
        r is Ok <==> (forall|k: int|
            0 <= k < validation_patterns().len() ==> regex_compiles(
                #[trigger] validation_patterns()[k],
            )),
        r matches Err(ValidationError::InvalidRule(k)) ==> k < validation_patterns().len()
            && !regex_compiles(validation_patterns()[k as int]) && (forall|j: int|
            0 <= j < k ==> regex_compiles(#[trigger] validation_patterns()[j])),
        r matches Ok(b) ==> b == ((forall|k: int|
            0 <= k < validation_patterns().len() ==> !regex_is_match(
                #[trigger] validation_patterns()[k],
                input@,
            )) && balanced(input@)),
{
    let patterns: [&'static str; 7] = [
        "\\( *\\)",
        "[^a-z A-Z0-9.+\\-*/^()=<>]",
        "[+\\-*/^]{2}",
        "\\([+\\-*/^]",
        "[a-z A-Z0-9.] +[a-z A-Z0-9.]",
        "[a-z A-Z0-9.+\\-*/^()]+[=><]$",
        "^[=><][a-zA-Z0-9.+\\-*/^()]+",
    ];
    assert(patterns@.map_values(|p: &'static str| p@) =~= validation_patterns());
    assert(validation_patterns().len() == 7);
    let mut matches: Vec<bool> = Vec::new();
    let mut k: usize = 0;
    while k < 7
        invariant
            k <= 7,
            matches@.len() == k,
            patterns@.map_values(|p: &'static str| p@) == validation_patterns(),
            validation_patterns().len() == 7,
            forall|j: int| 0 <= j < k ==> regex_compiles(#[trigger] validation_patterns()[j]),
            forall|i: int|
                0 <= i < k ==> #[trigger] matches@[i] == regex_is_match(
                    validation_patterns()[i],
                    input@,
                ),
        decreases 7 - k,
    {
        match match_pattern(patterns[k], input) {
            Ok(found) => matches.push(found),
            Err(_) => {
                return Err(ValidationError::InvalidRule(k));
            },
        }
        k = k + 1;
    }
    let verdict = verdict_from_matches(&matches, input);
    assert((forall|i: int| 0 <= i < matches@.len() ==> !#[trigger] matches@[i]) == (forall|i: int|
        0 <= i < validation_patterns().len() ==> !regex_is_match(
            #[trigger] validation_patterns()[i],
            input@,
        ))) by {
        if forall|i: int| 0 <= i < matches@.len() ==> !#[trigger] matches@[i] {
            assert forall|i: int| 0 <= i < validation_patterns().len() implies !regex_is_match(
                #[trigger] validation_patterns()[i],
                input@,
            ) by {
                assert(!matches@[i]);
            }
        }
    }
    Ok(verdict)
}

} // verus!
