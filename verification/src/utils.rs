//! Generated names for hoisted functions.
//!
//! A function is generated under its source name with a unique part
//! attached behind it: an underscore and sixteen letters and digits drawn at
//! random. The name so begins as the source name does, and functions of
//! different names never share a generated name.

use rand::distributions::Alphanumeric;
use rand::{thread_rng, Rng};
use vstd::prelude::*;
use vstd::string::*;

verus! {

/// The characters a unique part is drawn from: ASCII letters and digits.
pub open spec fn is_alphanumeric(c: char) -> bool {
    ('A' <= c && c <= 'Z') || ('a' <= c && c <= 'z') || ('0' <= c && c <= '9')
}

/// Length of the unique part of a generated name.
pub const SUFFIX_LEN: usize = 16;

/// Whether `suffix` can be the unique part of a generated name: sixteen
/// letters and digits.
pub open spec fn is_suffix(suffix: Seq<char>) -> bool {
    &&& suffix.len() == SUFFIX_LEN
    &&& forall|i: int| 0 <= i < suffix.len() ==> is_alphanumeric(#[trigger] suffix[i])
}

/// The generated name that the unique part `suffix` makes of `name`: the
/// name, an underscore and the unique part.
pub open spec fn suffixed(name: Seq<char>, suffix: Seq<char>) -> Seq<char> {
    name + "_"@ + suffix
}

/// Whether `generated` is `name` with an underscore and a unique part of
/// sixteen letters and digits behind it.
pub open spec fn is_generated_name(generated: Seq<char>, name: Seq<char>) -> bool {
    exists|suffix: Seq<char>| #[trigger] is_suffix(suffix) && generated == suffixed(name, suffix)
}

/// `thread_rng().sample(Alphanumeric)`: one character drawn at random from
/// the ASCII letters and digits. Nothing is said of which one. The generator
/// of the thread is seeded by the system and panics where that fails.
#[verifier::external_body]
fn random_alphanumeric() -> (c: char)
    ensures
        is_alphanumeric(c),
{
    char::from(thread_rng().sample(Alphanumeric))
}

/// `String::push`: appends one character.
#[verifier::external_body]
pub(crate) fn push_char(s: &mut String, c: char)
    ensures
        final(s)@ == old(s)@.push(c),
{
    s.push(c)
}

/// A unique part for a generated name, drawn at random.
pub fn random_suffix() -> (suffix: String)
    ensures
        is_suffix(suffix@),
{
    let mut out = String::new();
    let mut i: usize = 0;
    while i < SUFFIX_LEN
        invariant
            i <= SUFFIX_LEN,
            out@.len() == i,
            forall|j: int| 0 <= j < i ==> is_alphanumeric(#[trigger] out@[j]),
        decreases SUFFIX_LEN - i,
    {
        let c = random_alphanumeric();
        push_char(&mut out, c);
        i += 1;
    }
    out
}

/// The generated name that the unique part `suffix` makes of `name`: the
/// source name, an underscore and the unique part.
pub fn suffixed_name(name: &str, suffix: &str) -> (generated: String)
    ensures
        generated@ == suffixed(name@, suffix@),
{
    let mut out = String::from_str(name);
    out.append("_");
    out.append(suffix);
    out
}

/// A fresh name for the function `name`: the source name, an underscore and
/// a unique part drawn at random.
pub fn generate_function_name(name: &str) -> (generated: String)
    ensures
        is_generated_name(generated@, name@),
{
    let suffix = random_suffix();
    suffixed_name(name, suffix.as_str())
}

/// A generated name begins with its source name, goes on with an
/// underscore, and ends with sixteen letters and digits.
pub proof fn law_generated_name_shape(generated: Seq<char>, name: Seq<char>)
    requires
        is_generated_name(generated, name),
    ensures
        generated.len() == name.len() + 1 + SUFFIX_LEN,
        generated.subrange(0, name.len() as int) == name,
        generated[name.len() as int] == '_',
        forall|i: int|
            name.len() < i < generated.len() ==> is_alphanumeric(#[trigger] generated[i]),
{
    let suffix = choose|suffix: Seq<char>| #[trigger]
        is_suffix(suffix) && generated == suffixed(name, suffix);
    reveal_strlit("_");
    assert("_"@.len() == 1);
    assert forall|i: int| name.len() < i < generated.len() implies is_alphanumeric(
        #[trigger] generated[i],
    ) by {
        assert(generated[i] == suffix[i - name.len() - 1]);
    }
    assert(generated.subrange(0, name.len() as int) =~= name);
}

/// A generated name begins as its source name does: where the source name
/// is not empty, its first character is the first of the generated name.
pub proof fn law_generated_name_begins(generated: Seq<char>, name: Seq<char>)
    requires
        is_generated_name(generated, name),
        name.len() > 0,
    ensures
        generated[0] == name[0],
{
    law_generated_name_shape(generated, name);
    assert(generated.subrange(0, name.len() as int)[0] == generated[0]);
}

/// Whether `text` can be a name in the generated text: a letter or an
/// underscore, then letters, digits and underscores.
pub open spec fn is_identifier(text: Seq<char>) -> bool {
    &&& text.len() > 0
    &&& !('0' <= text[0] && text[0] <= '9')
    &&& forall|i: int| 0 <= i < text.len() ==> is_alphanumeric(#[trigger] text[i]) || text[i] == '_'
}

/// The generated name of a function whose source name is an identifier is
/// an identifier.
pub proof fn law_generated_name_is_identifier(generated: Seq<char>, name: Seq<char>)
    requires
        is_generated_name(generated, name),
        is_identifier(name),
    ensures
        is_identifier(generated),
{
    law_generated_name_shape(generated, name);
    law_generated_name_begins(generated, name);
    assert forall|i: int| 0 <= i < generated.len() implies is_alphanumeric(
        #[trigger] generated[i],
    ) || generated[i] == '_' by {
        if i < name.len() {
            assert(generated.subrange(0, name.len() as int)[i] == generated[i]);
            assert(is_alphanumeric(name[i]) || name[i] == '_');
        }
    }
}

/// Functions of different names get different generated names, whatever
/// the unique parts are.
pub proof fn law_generated_names_differ(
    first: Seq<char>,
    first_name: Seq<char>,
    second: Seq<char>,
    second_name: Seq<char>,
)
    requires
        is_generated_name(first, first_name),
        is_generated_name(second, second_name),
        first_name != second_name,
    ensures
        first != second,
{
    law_generated_name_shape(first, first_name);
    law_generated_name_shape(second, second_name);
}

} // verus!
