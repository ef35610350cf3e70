//! Textual form of an answer: a single value stands as its own text,
//! several alternatives are listed between braces in stored order.

use crate::answer::{Answer, AnswerView};
use vstd::prelude::*;

verus! {

/// The texts joined in order, with a comma and a space between neighbours.
pub open spec fn separated(parts: Seq<Seq<char>>) -> Seq<char>
    decreases parts.len(),
{
    if parts.len() == 0 {
        Seq::empty()
    } else if parts.len() == 1 {
        parts[0]
    } else {
        separated(parts.drop_last()) + seq![',', ' '] + parts.last()
    }
}

/// The textual form of an answer whose values are already texts.
pub open spec fn rendering(texts: AnswerView<Seq<char>>) -> Seq<char> {
    match texts {
        AnswerView::Single(text) => text,
        AnswerView::Multiple(parts) => seq!['{'] + separated(parts) + seq!['}'],
    }
}

/// An answer of strings as an answer of character sequences.
pub open spec fn text_views(texts: AnswerView<String>) -> AnswerView<Seq<char>> {
    match texts {
        AnswerView::Single(text) => AnswerView::Single(text@),
        AnswerView::Multiple(parts) => AnswerView::Multiple(parts.map_values(|t: String| t@)),
    }
}

/// `texts` has the shape of `answer` and holds, value for value, a text
/// that the value's `Display` implementation may produce.
pub open spec fn shown_as<N: core::fmt::Display>(
    answer: AnswerView<N>,
    texts: AnswerView<String>,
) -> bool {
    &&& answer is Single <==> texts is Single
    &&& answer.values().len() == texts.values().len()
    &&& forall|i: int|
        0 <= i < answer.values().len() ==> vstd::string::to_string_from_display_ensures::<N>(
            &answer.values()[i],
            #[trigger] texts.values()[i],
        )
}

/// The format in closed form for up to two alternatives: a single text
/// stands as it is, no alternative gives an empty pair of braces, one stands
/// alone between braces, two are parted by a comma and a space.
pub proof fn lemma_rendering_of_few(x: Seq<char>, y: Seq<char>)
    ensures
        rendering(AnswerView::Single(x)) == x,
        rendering(AnswerView::Multiple(Seq::empty())) == seq!['{', '}'],
        rendering(AnswerView::Multiple(seq![x])) == seq!['{'] + x + seq!['}'],
        rendering(AnswerView::Multiple(seq![x, y])) == seq!['{'] + x + seq![',', ' '] + y
            + seq!['}'],
{
    assert(seq!['{'] + separated(Seq::<Seq<char>>::empty()) + seq!['}'] =~= seq!['{', '}']);
    assert(seq![x, y].drop_last() =~= seq![x]);
    assert(separated(seq![x]) == x);
    assert(separated(seq![x, y]) == separated(seq![x]) + seq![',', ' '] + y);
}

/// The texts of a list appear in stored order: a list made of two
/// non-empty parts joins to the first part, a separator and the second
/// part.
pub proof fn lemma_separated_concat(front: Seq<Seq<char>>, back: Seq<Seq<char>>)
    requires
        front.len() > 0,
        back.len() > 0,
    ensures
        separated(front + back) == separated(front) + seq![',', ' '] + separated(back),
    decreases back.len(),
{
    let all = front + back;
    if back.len() == 1 {
        assert(all.drop_last() =~= front);
        assert(all.last() == back[0]);
    } else {
        lemma_separated_concat(front, back.drop_last());
        assert(all.drop_last() =~= front + back.drop_last());
        assert(all.last() == back.last());
        assert(separated(all) =~= separated(front) + seq![',', ' '] + separated(back));
    }
}

/// Joining one more text: the first stands alone, a later one follows a
/// separator.
proof fn lemma_separated_take(parts: Seq<Seq<char>>, i: int)
    requires
        0 <= i < parts.len(),
    ensures
        separated(parts.take(i + 1)) == if i == 0 {
            parts[i]
        } else {
            separated(parts.take(i)) + seq![',', ' '] + parts[i]
        },
{
    assert(parts.take(i + 1).drop_last() =~= parts.take(i));
}

impl Answer<String> {
    /// Renders an answer whose values are already texts: a single text as
    /// it stands, several as a brace-delimited list separated by a comma
    /// and a space, in stored order.
    pub fn render(&self) -> (s: String)
        ensures
            s@ == rendering(text_views(self@)),
    {
        match self {
            Answer::Single(text) => text.clone(),
            Answer::Multiple(texts) => {
                let ghost parts = texts@.map_values(|t: String| t@);
                proof {
                    reveal_strlit("{");
                    reveal_strlit(", ");
                    reveal_strlit("}");
                    assert("{"@ =~= seq!['{']);
                    assert(", "@ =~= seq![',', ' ']);
                    assert("}"@ =~= seq!['}']);
                }
                let mut buf = String::from_str("{");
                let mut i: usize = 0;
                while i < texts.len()
                    invariant
                        parts == texts@.map_values(|t: String| t@),
                        i <= texts.len(),
                        ", "@ == seq![',', ' '],
                        buf@ == seq!['{'] + separated(parts.take(i as int)) + if 0 < i
                            < texts.len() {
                            seq![',', ' ']
                        } else {
                            Seq::<char>::empty()
                        },
                    decreases texts.len() - i,
                {
                    proof {
                        lemma_separated_take(parts, i as int);
                    }
                    buf.append(texts[i].as_str());
                    if i + 1 < texts.len() {
                        buf.append(", ");
                    }
                    i += 1;
                    assert(buf@ =~= seq!['{'] + separated(parts.take(i as int)) + if 0 < i
                        < texts.len() {
                        seq![',', ' ']
                    } else {
                        Seq::<char>::empty()
                    });
                }
                buf.append("}");
                assert(parts.take(i as int) =~= parts);
                assert(buf@ =~= seq!['{'] + separated(parts) + seq!['}']);
                buf
            },
        }
    }
}

impl<N: core::fmt::Display> Answer<N> {
    /// Renders the answer with the `Display` text of each value: a single
    /// value as its own text, several as a brace-delimited list separated
    /// by a comma and a space, in stored order.
    pub fn to_string(&self) -> (s: String)
        ensures
            exists|texts: AnswerView<String>| #[trigger]
                shown_as(self@, texts) && s@ == rendering(text_views(texts)),
    {
        let texts = match self {
            Answer::Single(n) => Answer::Single(n.to_string()),
            Answer::Multiple(ns) => {
                let mut shown: Vec<String> = Vec::new();
                let mut i: usize = 0;
                while i < ns.len()
                    invariant
                        i <= ns.len(),
                        shown.len() == i,
                        forall|k: int|
                            0 <= k < i ==> vstd::string::to_string_from_display_ensures::<N>(
                                &ns@[k],
                                #[trigger] shown@[k],
                            ),
                    decreases ns.len() - i,
                {
                    shown.push(ns[i].to_string());
                    i += 1;
                }
                Answer::Multiple(shown)
            },
        };
        assert(shown_as(self@, texts@));
        texts.render()
    }
}

} // verus!
