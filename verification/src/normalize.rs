//! Names reduced to the lower-case tokens that they are compared by.

use vstd::prelude::*;

use crate::text::{
    ascii_lower, chars_of, concat, concat_texts, is_ascii_char, is_ascii_digit, is_ascii_lower,
    is_ascii_upper, join, join_texts, lemma_views_push, take_at_most, views,
};

verus! {

/// The most tokens that a name is split into.
pub const MAX_TOKENS: usize = 32;

/// Whether std's tables list a character beyond ASCII as numeric.
pub uninterp spec fn unicode_numeric(c: char) -> bool;

/// Whether a character is numeric; of ASCII, the digits are.
pub open spec fn numeric_char(c: char) -> bool {
    if is_ascii_char(c) {
        is_ascii_digit(c)
    } else {
        unicode_numeric(c)
    }
}

/// `char::is_numeric` of std. Claimed: the result depends on the character alone, and
/// of ASCII it holds of the digits.
pub assume_specification[ char::is_numeric ](c: char) -> (r: bool)
    ensures
        is_ascii_char(c) ==> r == is_ascii_digit(c),
        !is_ascii_char(c) ==> r == unicode_numeric(c),
;

/// Whether std's tables list a character beyond ASCII as lower case.
pub uninterp spec fn unicode_lowercase(c: char) -> bool;

/// Whether a character is lower case; of ASCII, `a` to `z` are.
pub open spec fn lowercase_char(c: char) -> bool {
    if is_ascii_char(c) {
        is_ascii_lower(c)
    } else {
        unicode_lowercase(c)
    }
}

/// `char::is_lowercase` of std. Claimed: the result depends on the character alone, and
/// of ASCII it holds of `a` to `z`.
pub assume_specification[ char::is_lowercase ](c: char) -> (r: bool)
    ensures
        is_ascii_char(c) ==> r == is_ascii_lower(c),
        !is_ascii_char(c) ==> r == unicode_lowercase(c),
;

/// Whether std's tables list a character beyond ASCII as upper case.
pub uninterp spec fn unicode_uppercase(c: char) -> bool;

/// Whether a character is upper case; of ASCII, `A` to `Z` are.
pub open spec fn uppercase_char(c: char) -> bool {
    if is_ascii_char(c) {
        is_ascii_upper(c)
    } else {
        unicode_uppercase(c)
    }
}

/// `char::is_uppercase` of std. Claimed: the result depends on the character alone, and
/// of ASCII it holds of `A` to `Z`.
pub assume_specification[ char::is_uppercase ](c: char) -> (r: bool)
    ensures
        is_ascii_char(c) ==> r == is_ascii_upper(c),
        !is_ascii_char(c) ==> r == unicode_uppercase(c),
;

/// Whether std's tables list a character beyond ASCII as alphabetic.
pub uninterp spec fn unicode_alphabetic(c: char) -> bool;

/// Whether a character is alphabetic; of ASCII, the letters are.
pub open spec fn alphabetic_char(c: char) -> bool {
    if is_ascii_char(c) {
        is_ascii_lower(c) || is_ascii_upper(c)
    } else {
        unicode_alphabetic(c)
    }
}

/// `char::is_alphabetic` of std. Claimed: the result depends on the character alone, and
/// of ASCII it holds of the letters.
pub assume_specification[ char::is_alphabetic ](c: char) -> (r: bool)
    ensures
        is_ascii_char(c) ==> r == (is_ascii_lower(c) || is_ascii_upper(c)),
        !is_ascii_char(c) ==> r == unicode_alphabetic(c),
;

/// The lower-case form that std's tables give a character beyond ASCII.
pub uninterp spec fn unicode_lowercase_form(c: char) -> Seq<char>;

/// The lower-case form of a character.
pub open spec fn lowercase_form(c: char) -> Seq<char> {
    if is_ascii_char(c) {
        seq![ascii_lower(c)]
    } else {
        unicode_lowercase_form(c)
    }
}

/// `char::to_lowercase` of std, collected into a text. Claimed: the result
/// depends on the character alone, is at least one character, and of ASCII is the
/// character itself, but for `A` to `Z`, which become `a` to `z`.
#[verifier::external_body]
fn lowercase_of(c: char) -> (r: String)
    ensures
        is_ascii_char(c) ==> r@ == seq![ascii_lower(c)],
        !is_ascii_char(c) ==> r@ == unicode_lowercase_form(c),
        r@.len() > 0,
{
    c.to_lowercase().collect()
}

/// What a character is to the tokenizer.
#[derive(Debug, Clone, Copy, PartialEq, Eq, Structural)]
pub enum CharacterClass {
    Boundary,
    Letter,
    Lower,
    Upper,
    Digit,
}

/// The class of a character of which it is known whether it is numeric, lower
/// case, upper case and alphabetic.
pub open spec fn class_by(
    numeric: bool,
    lowercase: bool,
    uppercase: bool,
    alphabetic: bool,
) -> CharacterClass {
    if numeric {
        CharacterClass::Digit
    } else if lowercase {
        CharacterClass::Lower
    } else if uppercase {
        CharacterClass::Upper
    } else if alphabetic {
        CharacterClass::Letter
    } else {
        CharacterClass::Boundary
    }
}

pub open spec fn class_of(c: char) -> CharacterClass {
    class_by(numeric_char(c), lowercase_char(c), uppercase_char(c), alphabetic_char(c))
}

impl CharacterClass {
    pub fn from_tables(numeric: bool, lowercase: bool, uppercase: bool, alphabetic: bool) -> (r: Self)
        ensures
            r == class_by(numeric, lowercase, uppercase, alphabetic),
    {
        if numeric {
            CharacterClass::Digit
        } else if lowercase {
            CharacterClass::Lower
        } else if uppercase {
            CharacterClass::Upper
        } else if alphabetic {
            CharacterClass::Letter
        } else {
            CharacterClass::Boundary
        }
    }

    pub fn of(c: char) -> (r: Self)
        ensures
            r == class_of(c),
    {
        Self::from_tables(c.is_numeric(), c.is_lowercase(), c.is_uppercase(), c.is_alphabetic())
    }
}

/// Whether a token ends between two neighbours of these classes: where a word
/// in camel case begins, or letters and digits meet.
pub open spec fn camel_boundary(previous: CharacterClass, next: CharacterClass) -> bool {
    match previous {
        CharacterClass::Lower => next == CharacterClass::Upper || next == CharacterClass::Digit,
        CharacterClass::Letter | CharacterClass::Upper => next == CharacterClass::Digit,
        CharacterClass::Digit => next == CharacterClass::Letter || next == CharacterClass::Lower
            || next == CharacterClass::Upper,
        CharacterClass::Boundary => false,
    }
}

/// A full-width form as the character that it is a form of.
pub open spec fn narrow(c: char) -> char {
    if c == '\u{3000}' {
        ' '
    } else if '\u{ff01}' <= c <= '\u{ff5e}' {
        (c as u32 - 0xfee0) as char
    } else {
        c
    }
}

pub fn fold_fullwidth(c: char) -> (r: char)
    ensures
        r == narrow(c),
{
    if c == '\u{3000}' {
        ' '
    } else if '\u{ff01}' <= c && c <= '\u{ff5e}' {
        let code: u32 = c as u32 - 0xfee0;
        let low: u8 = code as u8;
        low as char
    } else {
        c
    }
}

/// A character as the tokenizer takes it: its class, and its lower-case form.
#[derive(Debug)]
pub struct Glyph {
    pub class: CharacterClass,
    pub lower: String,
}

pub struct GlyphView {
    pub class: CharacterClass,
    pub lower: Seq<char>,
}

impl View for Glyph {
    type V = GlyphView;

    open spec fn view(&self) -> GlyphView {
        GlyphView { class: self.class, lower: self.lower@ }
    }
}

pub open spec fn glyph(c: char) -> GlyphView {
    GlyphView { class: class_of(narrow(c)), lower: lowercase_form(narrow(c)) }
}

/// The tokens that `done` and the one under way make up.
pub open spec fn close(done: Seq<Seq<char>>, current: Seq<char>) -> Seq<Seq<char>> {
    if current.len() == 0 {
        done
    } else {
        done.push(current)
    }
}

/// The class of the last glyph; of nothing, a boundary.
pub open spec fn last_class(g: Seq<GlyphView>) -> CharacterClass {
    if g.len() == 0 {
        CharacterClass::Boundary
    } else {
        g.last().class
    }
}

/// The finished tokens of `g` and the token under way at its end.
pub open spec fn segments(g: Seq<GlyphView>) -> (Seq<Seq<char>>, Seq<char>)
    decreases g.len(),
{
    if g.len() == 0 {
        (Seq::empty(), Seq::empty())
    } else {
        let (done, current) = segments(g.drop_last());
        let class = g.last().class;
        if class == CharacterClass::Boundary {
            (close(done, current), Seq::empty())
        } else if camel_boundary(last_class(g.drop_last()), class) {
            (close(done, current), g.last().lower)
        } else {
            (done, current + g.last().lower)
        }
    }
}

/// The first tokens of `g`, as many as are kept.
pub open spec fn tokens_of(g: Seq<GlyphView>) -> Seq<Seq<char>> {
    take_at_most(close(segments(g).0, segments(g).1), MAX_TOKENS as nat)
}

/// A name as tokens, with the tokens joined by hyphens and run together.
#[derive(Debug)]
pub struct Normalized {
    pub tokens: Vec<String>,
    pub joined: String,
    pub compact: String,
}

#[verifier::ext_equal]
pub struct NormalizedView {
    pub tokens: Seq<Seq<char>>,
    pub joined: Seq<char>,
    pub compact: Seq<char>,
}

impl View for Normalized {
    type V = NormalizedView;

    open spec fn view(&self) -> NormalizedView {
        NormalizedView {
            tokens: views(self.tokens@),
            joined: self.joined@,
            compact: self.compact@,
        }
    }
}

/// The name that consists of the given tokens.
pub open spec fn of_tokens(tokens: Seq<Seq<char>>) -> NormalizedView {
    NormalizedView { tokens, joined: join(tokens, "-"@), compact: concat(tokens) }
}

/// What a text is reduced to, of which the first `limit` characters count.
pub open spec fn normalize(value: Seq<char>, limit: nat) -> NormalizedView {
    of_tokens(tokens_of(take_at_most(value, limit).map_values(|c: char| glyph(c))))
}

/// Ends the token under way, and keeps it if there is room.
pub fn finish_token(tokens: &mut Vec<String>, current: &mut String)
    ensures
        views(final(tokens)@) == if old(current)@.len() > 0 && old(tokens)@.len() < MAX_TOKENS {
            views(old(tokens)@).push(old(current)@)
        } else {
            views(old(tokens)@)
        },
        final(current)@.len() == 0,
{
    let mut finished = String::new();
    std::mem::swap(&mut finished, current);
    if !finished.as_str().is_empty() && tokens.len() < MAX_TOKENS {
        tokens.push(finished);
    }
    proof {
        lemma_views_push(old(tokens)@, finished);
    }
}

impl Normalized {
    /// The name that the given glyphs spell.
    pub fn of_glyphs(glyphs: &Vec<Glyph>) -> (r: Normalized)
        ensures
            r@ == of_tokens(tokens_of(views(glyphs@))),
    {
        let ghost g = views(glyphs@);
        let mut tokens: Vec<String> = Vec::new();
        let mut current = String::new();
        let mut previous = CharacterClass::Boundary;
        let n: usize = glyphs.len();
        assert(g.take(0).len() == 0);
        assert(views(tokens@) =~= Seq::<Seq<char>>::empty());
        assert(current@ =~= Seq::<char>::empty());
        for i in 0..n
            invariant
                n == glyphs@.len(),
                g == views(glyphs@),
                previous == last_class(g.take(i as int)),
                current@ == segments(g.take(i as int)).1,
                views(tokens@) == take_at_most(segments(g.take(i as int)).0, MAX_TOKENS as nat),
        {
            let class = glyphs[i].class;
            let ghost before = segments(g.take(i as int));
            proof {
                assert(g.take(i + 1).drop_last() =~= g.take(i as int));
                assert(g.take(i + 1).last() == glyphs@[i as int]@);
            }
            let camel = match previous {
                CharacterClass::Lower => class == CharacterClass::Upper || class
                    == CharacterClass::Digit,
                CharacterClass::Letter | CharacterClass::Upper => class == CharacterClass::Digit,
                CharacterClass::Digit => class == CharacterClass::Letter || class
                    == CharacterClass::Lower || class == CharacterClass::Upper,
                CharacterClass::Boundary => false,
            };
            if class == CharacterClass::Boundary || camel {
                finish_token(&mut tokens, &mut current);
                assert(views(tokens@) =~= take_at_most(
                    close(before.0, before.1),
                    MAX_TOKENS as nat,
                ));
                assert(current@ =~= Seq::<char>::empty());
            }
            if class != CharacterClass::Boundary {
                current.append(glyphs[i].lower.as_str());
                assert(current@ =~= segments(g.take(i + 1)).1);
            }
            previous = class;
        }
        assert(g.take(n as int) =~= g);
        finish_token(&mut tokens, &mut current);
        assert(views(tokens@) =~= tokens_of(g));
        let joined = join_texts(&tokens, "-");
        let compact = concat_texts(&tokens);
        Normalized { tokens, joined, compact }
    }

    /// What `value` is reduced to, of which the first `limit` characters count.
    pub fn new(value: &str, limit: usize) -> (r: Normalized)
        ensures
            r@ == normalize(value@, limit as nat),
    {
        let chars = chars_of(value);
        let n: usize = if chars.len() < limit {
            chars.len()
        } else {
            limit
        };
        let ghost all = take_at_most(value@, limit as nat).map_values(|c: char| glyph(c));
        let mut glyphs: Vec<Glyph> = Vec::new();
        assert(views(glyphs@) =~= all.take(0));
        for i in 0..n
            invariant
                n <= chars@.len(),
                n <= limit,
                chars@ == value@,
                n == all.len(),
                all == take_at_most(value@, limit as nat).map_values(|c: char| glyph(c)),
                views(glyphs@) == all.take(i as int),
        {
            let c = fold_fullwidth(chars[i]);
            let ghost before = glyphs@;
            let item = Glyph { class: CharacterClass::of(c), lower: lowercase_of(c) };
            glyphs.push(item);
            proof {
                lemma_views_push(before, item);
                assert(all[i as int] == glyph(value@[i as int]));
                assert(views(glyphs@) =~= all.take(i + 1));
            }
        }
        assert(all.take(n as int) =~= all);
        Self::of_glyphs(&glyphs)
    }
}

/// Whatever is normalized, there are at most as many tokens as are kept, none
/// of them is empty, and the joined and the compact form are made of them.
pub proof fn law_normalized_bounded(value: Seq<char>, limit: nat)
    ensures
        normalize(value, limit).tokens.len() <= MAX_TOKENS,
        forall|i: int|
            0 <= i < normalize(value, limit).tokens.len() ==> (#[trigger] normalize(
                value,
                limit,
            ).tokens[i]).len() > 0,
        normalize(value, limit) == of_tokens(normalize(value, limit).tokens),
{
    lemma_segments_filled(take_at_most(value, limit).map_values(|c: char| glyph(c)));
}

proof fn lemma_segments_filled(g: Seq<GlyphView>)
    ensures
        forall|i: int| 0 <= i < segments(g).0.len() ==> (#[trigger] segments(g).0[i]).len() > 0,
    decreases g.len(),
{
    if g.len() > 0 {
        lemma_segments_filled(g.drop_last());
        let before = segments(g.drop_last()).0;
        assert forall|i: int| 0 <= i < segments(g).0.len() implies (#[trigger] segments(g).0[i]).len()
            > 0 by {
            if i < before.len() {
                assert(segments(g).0[i] == segments(g.drop_last()).0[i]);
            }
        }
    }
}

/// Whether a token is a run of lower-case ASCII letters, or one of ASCII digits.
pub open spec fn is_run(token: Seq<char>) -> bool {
    &&& token.len() > 0
    &&& (forall|i: int| 0 <= i < token.len() ==> is_ascii_lower(#[trigger] token[i])) || (forall|
        i: int,
    |
        0 <= i < token.len() ==> is_ascii_digit(#[trigger] token[i]))
}

/// The glyphs of a text.
pub open spec fn glyphs_of(s: Seq<char>) -> Seq<GlyphView> {
    s.map_values(|c: char| glyph(c))
}

proof fn lemma_glyphs_step(s: Seq<char>)
    requires
        s.len() > 0,
    ensures
        glyphs_of(s).len() == s.len(),
        glyphs_of(s).drop_last() == glyphs_of(s.drop_last()),
        glyphs_of(s).last() == glyph(s.last()),
{
    assert(glyphs_of(s).drop_last() =~= glyphs_of(s.drop_last()));
}

/// The token that ends ASCII text is a run of the kind that its last character is
/// of, and the tokens before it are runs.
proof fn lemma_ascii_segments(s: Seq<char>)
    requires
        forall|i: int| 0 <= i < s.len() ==> is_ascii_char(#[trigger] s[i]),
    ensures
        forall|i: int|
            0 <= i < segments(glyphs_of(s)).0.len() ==> is_run(
                #[trigger] segments(glyphs_of(s)).0[i],
            ),
        match last_class(glyphs_of(s)) {
            CharacterClass::Boundary => segments(glyphs_of(s)).1.len() == 0,
            CharacterClass::Letter => false,
            CharacterClass::Digit => segments(glyphs_of(s)).1.len() > 0 && forall|i: int|
                0 <= i < segments(glyphs_of(s)).1.len() ==> is_ascii_digit(
                    #[trigger] segments(glyphs_of(s)).1[i],
                ),
            _ => segments(glyphs_of(s)).1.len() > 0 && forall|i: int|
                0 <= i < segments(glyphs_of(s)).1.len() ==> is_ascii_lower(
                    #[trigger] segments(glyphs_of(s)).1[i],
                ),
        },
    decreases s.len(),
{
    if s.len() > 0 {
        let rest = s.drop_last();
        assert forall|i: int| 0 <= i < rest.len() implies is_ascii_char(#[trigger] rest[i]) by {
            assert(rest[i] == s[i]);
        }
        lemma_ascii_segments(rest);
        lemma_glyphs_step(s);
        let c = s.last();
        assert(is_ascii_char(s[s.len() - 1]));
        assert(narrow(c) == c);
        let before = segments(glyphs_of(rest));
        let after = segments(glyphs_of(s));
        if before.1.len() > 0 {
            assert(is_run(before.1));
        }
        assert forall|i: int| 0 <= i < after.0.len() implies is_run(#[trigger] after.0[i]) by {
            if i < before.0.len() {
                assert(after.0[i] == before.0[i]);
            } else {
                assert(after.0[i] == before.1);
            }
        }
        if class_of(c) != CharacterClass::Boundary {
            let lower = seq![ascii_lower(c)];
            assert(glyph(c).lower == lower);
            assert(lower[0] == ascii_lower(c));
        }
    }
}

/// A run that follows a boundary is the token under way.
proof fn lemma_run_follows(s: Seq<char>, run: Seq<char>)
    requires
        last_class(glyphs_of(s)) == CharacterClass::Boundary,
        segments(glyphs_of(s)).1.len() == 0,
        run.len() == 0 || is_run(run),
    ensures
        segments(glyphs_of(s + run)) == (segments(glyphs_of(s)).0, run),
        run.len() > 0 ==> last_class(glyphs_of(s + run)) == class_of(run.last()),
    decreases run.len(),
{
    if run.len() == 0 {
        assert(s + run =~= s);
        assert(segments(glyphs_of(s)).1 =~= run);
    } else {
        let less = run.drop_last();
        assert forall|i: int| 0 <= i < less.len() implies less[i] == #[trigger] run[i] by {}
        if less.len() > 0 {
            assert(is_run(less)) by {
                if forall|i: int| 0 <= i < run.len() ==> is_ascii_lower(#[trigger] run[i]) {
                    assert(forall|i: int|
                        0 <= i < less.len() ==> is_ascii_lower(#[trigger] less[i])) by {
                        assert forall|i: int| 0 <= i < less.len() implies is_ascii_lower(
                            #[trigger] less[i],
                        ) by {
                            assert(less[i] == run[i]);
                        }
                    }
                } else {
                    assert forall|i: int| 0 <= i < less.len() implies is_ascii_digit(
                        #[trigger] less[i],
                    ) by {
                        assert(less[i] == run[i]);
                    }
                }
            }
        }
        lemma_run_follows(s, less);
        let whole = s + run;
        assert(whole.drop_last() =~= s + less);
        assert(whole.last() == run.last());
        lemma_glyphs_step(whole);
        let c = run.last();
        assert(run[run.len() - 1] == c);
        assert(is_ascii_lower(c) || is_ascii_digit(c));
        assert(narrow(c) == c);
        assert(glyph(c).lower == seq![c]);
        if less.len() > 0 {
            assert(run[less.len() - 1] == less.last());
            assert(class_of(less.last()) == class_of(c));
        }
        assert(less + seq![c] =~= run);
        assert(seq![c] =~= run || less.len() > 0);
    }
}

/// Runs that hyphens join are the tokens that the text is split into.
proof fn lemma_joined_runs(tokens: Seq<Seq<char>>)
    requires
        tokens.len() > 0,
        forall|i: int| 0 <= i < tokens.len() ==> is_run(#[trigger] tokens[i]),
    ensures
        segments(glyphs_of(join(tokens, "-"@))) == (tokens.drop_last(), tokens.last()),
    decreases tokens.len(),
{
    reveal_strlit("-");
    let rest = tokens.drop_last();
    let last = tokens.last();
    assert(is_run(tokens[tokens.len() - 1]));
    if tokens.len() == 1 {
        let none = Seq::<char>::empty();
        assert(glyphs_of(none).len() == 0);
        lemma_run_follows(none, last);
        assert(none + last =~= last);
        assert(rest =~= Seq::<Seq<char>>::empty());
    } else {
        assert forall|i: int| 0 <= i < rest.len() implies is_run(#[trigger] rest[i]) by {
            assert(rest[i] == tokens[i]);
        }
        lemma_joined_runs(rest);
        let before = join(rest, "-"@);
        let marked = before + "-"@;
        assert(marked.drop_last() =~= before);
        assert(marked.last() == '-');
        lemma_glyphs_step(marked);
        assert(narrow('-') == '-');
        assert(class_of('-') == CharacterClass::Boundary);
        assert(rest.last().len() > 0) by {
            assert(is_run(rest[rest.len() - 1]));
        }
        assert(rest.drop_last().push(rest.last()) =~= rest);
        lemma_run_follows(marked, last);
        assert(join(tokens, "-"@) =~= marked + last);
    }
}

/// An ASCII name is split into runs of lower-case letters and runs of digits, and
/// normalizing its joined form again changes nothing.
pub proof fn law_normalizing_ascii_is_stable(value: Seq<char>, limit: nat)
    requires
        forall|i: int| 0 <= i < value.len() ==> is_ascii_char(#[trigger] value[i]),
    ensures
        ({
            let name = normalize(value, limit);
            &&& forall|i: int| 0 <= i < name.tokens.len() ==> is_run(#[trigger] name.tokens[i])
            &&& normalize(name.joined, name.joined.len()) == name
        }),
{
    let taken = take_at_most(value, limit);
    assert forall|i: int| 0 <= i < taken.len() implies is_ascii_char(#[trigger] taken[i]) by {
        assert(taken[i] == value[i]);
    }
    lemma_ascii_segments(taken);
    let name = normalize(value, limit);
    let parts = segments(glyphs_of(taken));
    let all = close(parts.0, parts.1);
    assert forall|i: int| 0 <= i < all.len() implies is_run(#[trigger] all[i]) by {
        if i < parts.0.len() {
            assert(all[i] == parts.0[i]);
        } else {
            assert(all[i] == parts.1);
        }
    }
    assert(name.tokens == take_at_most(all, MAX_TOKENS as nat));
    assert forall|i: int| 0 <= i < name.tokens.len() implies is_run(#[trigger] name.tokens[i]) by {
        assert(name.tokens[i] == all[i]);
    }
    let joined = name.joined;
    assert(take_at_most(joined, joined.len()) =~= joined);
    if name.tokens.len() > 0 {
        lemma_joined_runs(name.tokens);
        assert(is_run(name.tokens[name.tokens.len() - 1]));
        assert(name.tokens.drop_last().push(name.tokens.last()) =~= name.tokens);
    } else {
        assert(name.tokens =~= Seq::<Seq<char>>::empty());
        assert(glyphs_of(joined).len() == 0);
        assert(segments(glyphs_of(joined)).0 =~= name.tokens);
    }
    assert(take_at_most(name.tokens, MAX_TOKENS as nat) =~= name.tokens);
}

/// All tokens of `g`, however many there are.
pub open spec fn all_tokens(g: Seq<GlyphView>) -> Seq<Seq<char>> {
    close(segments(g).0, segments(g).1)
}

/// Of a text the first characters count, and of its tokens the first 32.
pub proof fn law_first_tokens_count(value: Seq<char>, limit: nat)
    ensures
        ({
            let taken = if value.len() <= limit {
                value
            } else {
                value.take(limit as int)
            };
            let all = all_tokens(glyphs_of(taken));
            normalize(value, limit).tokens == if all.len() <= 32 {
                all
            } else {
                all.take(32)
            }
        }),
{
    let taken = take_at_most(value, limit);
    assert(taken =~= if value.len() <= limit {
        value
    } else {
        value.take(limit as int)
    });
    let all = all_tokens(glyphs_of(taken));
    assert(take_at_most(all, 32) =~= if all.len() <= 32 {
        all
    } else {
        all.take(32)
    });
}

/// A name is its tokens with a hyphen between each two, and without it one text of letters.
pub proof fn law_tokens_make_the_name(tokens: Seq<Seq<char>>, more: Seq<char>)
    ensures
        of_tokens(tokens).tokens == tokens,
        of_tokens(Seq::empty()).joined.len() == 0,
        of_tokens(Seq::empty()).compact.len() == 0,
        of_tokens(tokens.push(more)).compact == of_tokens(tokens).compact + more,
        of_tokens(tokens.push(more)).joined == if tokens.len() == 0 {
            more
        } else {
            of_tokens(tokens).joined + seq!['-'] + more
        },
{
    reveal_strlit("-");
    assert("-"@ =~= seq!['-']);
    assert(tokens.push(more).drop_last() =~= tokens);
}

/// A character that is neither a letter nor a digit parts what stands before it from what
/// stands behind it, and is in no token itself.
pub proof fn law_other_characters_part_tokens(
    before: Seq<GlyphView>,
    between: GlyphView,
    behind: Seq<GlyphView>,
)
    requires
        between.class == CharacterClass::Boundary,
    ensures
        all_tokens(before.push(between) + behind) == all_tokens(before) + all_tokens(behind),
{
    lemma_parted(before.push(between), behind);
    assert(before.push(between).drop_last() =~= before);
    assert(all_tokens(before.push(between)) =~= all_tokens(before));
}

/// A token ends where a capital follows a small letter, where a digit follows a letter, and
/// where a letter follows a digit.
pub proof fn law_changes_part_tokens(before: Seq<GlyphView>, behind: Seq<GlyphView>)
    requires
        before.len() > 0,
        behind.len() > 0,
        ({
            let last = before[before.len() - 1].class;
            let next = behind[0].class;
            ||| last == CharacterClass::Lower && next == CharacterClass::Upper
            ||| next == CharacterClass::Digit && (last == CharacterClass::Lower || last
                == CharacterClass::Upper || last == CharacterClass::Letter)
            ||| last == CharacterClass::Digit && (next == CharacterClass::Lower || next
                == CharacterClass::Upper || next == CharacterClass::Letter)
        }),
    ensures
        all_tokens(before + behind) == all_tokens(before) + all_tokens(behind),
{
    lemma_parted(before, behind);
}

proof fn lemma_parted(before: Seq<GlyphView>, behind: Seq<GlyphView>)
    requires
        behind.len() == 0 || last_class(before) == CharacterClass::Boundary || camel_boundary(
            last_class(before),
            behind[0].class,
        ),
        last_class(before) == CharacterClass::Boundary ==> segments(before).1.len() == 0,
    ensures
        behind.len() > 0 ==> segments(before + behind).0 == all_tokens(before) + segments(
            behind,
        ).0,
        behind.len() > 0 ==> segments(before + behind).1 == segments(behind).1,
        all_tokens(before + behind) == all_tokens(before) + all_tokens(behind),
    decreases behind.len(),
{
    let all = before + behind;
    if behind.len() == 0 {
        assert(all =~= before);
        assert(all_tokens(behind) =~= Seq::empty());
        assert(all_tokens(before) + all_tokens(behind) =~= all_tokens(before));
    } else {
        let rest = behind.drop_last();
        assert(all.drop_last() =~= before + rest);
        lemma_parted(before, rest);
        assert(all.last() == behind.last());
        if rest.len() == 0 {
            assert(before + rest =~= before);
            assert(segments(rest).0.len() == 0 && segments(rest).1.len() == 0);
            assert(Seq::<char>::empty() + behind.last().lower =~= behind.last().lower);
            assert(segments(before).1 + behind.last().lower =~= if segments(before).1.len() == 0 {
                behind.last().lower
            } else {
                segments(before).1 + behind.last().lower
            });
            assert(all_tokens(before) + segments(behind).0 =~= all_tokens(before));
        } else {
            assert((before + rest).last() == rest.last());
            let front = all_tokens(before);
            let part = segments(rest);
            assert(close(front + part.0, part.1) =~= front + close(part.0, part.1));
        }
        let front = all_tokens(before);
        let part = segments(behind);
        assert(close(front + part.0, part.1) =~= front + close(part.0, part.1));
    }
}

/// Whether a character is of the class of the one before it, or a small letter behind a
/// capital.
pub open spec fn goes_on(g: Seq<GlyphView>, i: int) -> bool {
    g[i].class == g[i - 1].class || (g[i - 1].class == CharacterClass::Upper && g[i].class
        == CharacterClass::Lower)
}

/// Characters without such a change between them make up one token, in lower case.
pub proof fn law_run_is_one_token(g: Seq<GlyphView>)
    requires
        g.len() > 0,
        forall|i: int| 0 <= i < g.len() ==> (#[trigger] g[i]).lower.len() > 0,
        forall|i: int| 0 <= i < g.len() ==> (#[trigger] g[i]).class != CharacterClass::Boundary,
        forall|i: int| 0 < i < g.len() ==> #[trigger] goes_on(g, i),
    ensures
        all_tokens(g) == seq![concat(g.map_values(|x: GlyphView| x.lower))],
{
    lemma_run(g);
}

proof fn lemma_run(g: Seq<GlyphView>)
    requires
        forall|i: int| 0 <= i < g.len() ==> (#[trigger] g[i]).lower.len() > 0,
        forall|i: int| 0 <= i < g.len() ==> (#[trigger] g[i]).class != CharacterClass::Boundary,
        forall|i: int| 0 < i < g.len() ==> #[trigger] goes_on(g, i),
    ensures
        segments(g).0.len() == 0,
        segments(g).1 == concat(g.map_values(|x: GlyphView| x.lower)),
        g.len() > 0 ==> segments(g).1.len() > 0,
    decreases g.len(),
{
    if g.len() > 0 {
        let rest = g.drop_last();
        assert forall|i: int| 0 <= i < rest.len() implies (#[trigger] rest[i]).lower.len()
            > 0 by {
            assert(rest[i] == g[i]);
        }
        assert forall|i: int| 0 <= i < rest.len() implies (#[trigger] rest[i]).class
            != CharacterClass::Boundary by {
            assert(rest[i] == g[i]);
        }
        assert forall|i: int| 0 < i < rest.len() implies #[trigger] goes_on(rest, i) by {
            assert(goes_on(g, i));
        }
        lemma_run(rest);
        assert(g[g.len() - 1].lower.len() > 0);
        if rest.len() > 0 {
            assert(rest.last() == g[g.len() - 2]);
            assert(goes_on(g, g.len() - 1));
        }
        assert(g.map_values(|x: GlyphView| x.lower).drop_last() =~= rest.map_values(
            |x: GlyphView| x.lower,
        ));
    }
}

/// Of ASCII the digits, the small letters and the capitals are told apart, and every other
/// character parts tokens; a capital counts as its small letter.
pub proof fn law_ascii_glyphs(c: char)
    requires
        c <= '\u{7f}',
    ensures
        glyph(c).class == if '0' <= c <= '9' {
            CharacterClass::Digit
        } else if 'a' <= c <= 'z' {
            CharacterClass::Lower
        } else if 'A' <= c <= 'Z' {
            CharacterClass::Upper
        } else {
            CharacterClass::Boundary
        },
        glyph(c).lower == if 'A' <= c <= 'Z' {
            seq![(c as int + 32) as char]
        } else {
            seq![c]
        },
{
}

/// A full-width form counts as the ASCII character that it is a form of, and the
/// ideographic space as a space.
pub proof fn law_wide_forms_are_narrow(c: char)
    ensures
        glyph('\u{3000}') == glyph(' '),
        '\u{ff01}' <= c <= '\u{ff5e}' ==> narrow(c) as int == c as int - 0xfee0 && '!' <= narrow(c)
            <= '~' && glyph(c) == glyph(narrow(c)),
        c != '\u{3000}' && !('\u{ff01}' <= c <= '\u{ff5e}') ==> glyph(c).lower == lowercase_form(c),
{
}

/// Of a character beyond ASCII it counts first whether it is numeric, then whether it is
/// lower case, upper case or another letter.
pub proof fn law_classes_are_told_in_order(c: char)
    ensures
        numeric_char(c) ==> class_of(c) == CharacterClass::Digit,
        !numeric_char(c) && lowercase_char(c) ==> class_of(c) == CharacterClass::Lower,
        !numeric_char(c) && !lowercase_char(c) && uppercase_char(c) ==> class_of(c)
            == CharacterClass::Upper,
        !numeric_char(c) && !lowercase_char(c) && !uppercase_char(c) && alphabetic_char(c)
            ==> class_of(c) == CharacterClass::Letter,
        !numeric_char(c) && !lowercase_char(c) && !uppercase_char(c) && !alphabetic_char(c)
            ==> class_of(c) == CharacterClass::Boundary,
{
}

} // verus!
