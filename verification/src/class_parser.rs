//! The inline-element rule, built on the heading rule's template: an
//! opening `<`, the element name, `key=value` attribute pairs, `>`, the
//! body tokens, then a closing `</name>` whose name must equal the
//! opening one — the name recognized at the start constrains what the
//! closing tag must carry. A name mismatch, or a missing closing tag, is
//! a hard parse failure.

use vstd::prelude::*;

use crate::ast::{HTMLClass, HTMLClassModel};
use crate::lexer::{Token, TokenModel};
use crate::parser::{clone_tokens_range, lemma_token_run, lemma_token_run_is, token_run,
    ParseError, ParseErrorKind, ParseErrorKindModel, ParseErrorModel};

verus! {

/// A token that may stand inside an element body: anything but the
/// closing-tag delimiter.
pub open spec fn is_body_token(t: TokenModel) -> bool {
    !(t is ClassTerminator)
}

/// The closing sequence from position `j`: the body ran to `j`, which
/// must carry `</`, the closing name, and `>`, reaching the end of the
/// input; the closing name must equal `name`.
pub open spec fn spec_class_close(
    ts: Seq<TokenModel>,
    j: int,
    name: Seq<char>,
    attrs: Seq<(Seq<char>, Seq<char>)>,
    body_from: int,
) -> Result<HTMLClassModel, ParseErrorModel> {
    if j >= ts.len() {
        Err(ParseErrorModel { at: j, kind: ParseErrorKindModel::UnterminatedClass })
    } else if !(j + 1 < ts.len() && ts[j + 1] is Word) {
        Err(ParseErrorModel { at: j + 1, kind: ParseErrorKindModel::ExpectedClassName })
    } else if !(j + 2 < ts.len() && ts[j + 2] == TokenModel::RAngle) {
        Err(ParseErrorModel { at: j + 2, kind: ParseErrorKindModel::UnterminatedClass })
    } else if ts[j + 1]->Word_0 != name {
        Err(ParseErrorModel { at: j + 1, kind: ParseErrorKindModel::ClassNameMismatch })
    } else if j + 3 != ts.len() {
        Err(ParseErrorModel { at: j + 3, kind: ParseErrorKindModel::ExpectedEndOfInput })
    } else {
        Ok(HTMLClassModel { name: name, attributes: attrs, text: ts.subrange(body_from, j) })
    }
}

/// The attribute walk from position `i`: whitespace between attributes is
/// skipped, each `key = value` word triple is collected, and `>` opens
/// the body, which runs to the closing-tag delimiter.
pub open spec fn spec_attr_loop(
    ts: Seq<TokenModel>,
    i: int,
    name: Seq<char>,
    attrs: Seq<(Seq<char>, Seq<char>)>,
) -> Result<HTMLClassModel, ParseErrorModel>
    decreases ts.len() - i,
{
    if i < 0 || i >= ts.len() {
        Err(ParseErrorModel { at: i, kind: ParseErrorKindModel::UnterminatedClass })
    } else {
        match ts[i] {
            TokenModel::Whitespace => spec_attr_loop(ts, i + 1, name, attrs),
            TokenModel::Tabspace => spec_attr_loop(ts, i + 1, name, attrs),
            TokenModel::RAngle => {
                let b = token_run(ts.skip(i + 1), |t: TokenModel| is_body_token(t)) as int;
                spec_class_close(ts, i + 1 + b, name, attrs, i + 1)
            },
            TokenModel::Word(k) => if i + 2 < ts.len() && ts[i + 1] == TokenModel::Equal && ts[i
                + 2] is Word {
                spec_attr_loop(ts, i + 3, name, attrs.push((k, ts[i + 2]->Word_0)))
            } else {
                Err(ParseErrorModel { at: i, kind: ParseErrorKindModel::MalformedAttribute })
            },
            _ => Err(ParseErrorModel { at: i, kind: ParseErrorKindModel::UnexpectedToken }),
        }
    }
}

/// The inline-element rule, on the whole token sequence: `<`, the element
/// name, the attribute walk of [`spec_attr_loop`], the body, and the
/// closing tag, which must name the same element.
pub open spec fn spec_parse_class(ts: Seq<TokenModel>) -> Result<HTMLClassModel, ParseErrorModel> {
    if ts.len() == 0 || ts[0] != TokenModel::LAngle {
        Err(ParseErrorModel { at: 0, kind: ParseErrorKindModel::ExpectedClassOpen })
    } else if !(ts.len() >= 2 && ts[1] is Word) {
        Err(ParseErrorModel { at: 1, kind: ParseErrorKindModel::ExpectedClassName })
    } else {
        spec_attr_loop(ts, 2, ts[1]->Word_0, Seq::empty())
    }
}

/// The length of the run of body tokens starting at `i`.
fn body_run_from(tokens: &Vec<Token>, i: usize) -> (n: usize)
    requires
        i <= tokens.len(),
    ensures
        n == token_run(tokens.deep_view().skip(i as int), |t: TokenModel| is_body_token(t)),
        i + n <= tokens.len(),
{
    let ghost ts = tokens.deep_view();
    let mut j: usize = i;
    while j < tokens.len() && !matches!(&tokens[j], Token::ClassTerminator)
        invariant
            i <= j <= tokens.len(),
            ts == tokens.deep_view(),
            ts.len() == tokens.len(),
            forall|k: int| i <= k < j ==> is_body_token(#[trigger] ts[k]),
        decreases tokens.len() - j,
    {
        j += 1;
    }
    proof {
        let s = ts.skip(i as int);
        assert forall|k: int| 0 <= k < j - i implies (|t: TokenModel| is_body_token(t))(s[k]) by {
            assert(s[k] == ts[i + k]);
        }
        if j < tokens.len() {
            assert(s[j - i] == ts[j as int]);
        }
        lemma_token_run_is(s, |t: TokenModel| is_body_token(t), j - i);
    }
    j - i
}

/// Parses the whole token sequence as one inline element, following
/// [`spec_parse_class`] exactly: the name recognized after `<` is
/// threaded through and must reappear in the closing tag; a mismatch is a
/// structured error, never an element under either name.
#[verifier::loop_isolation(false)]
#[verifier::rlimit(60)]
pub fn parse_html_class(tokens: &Vec<Token>) -> (r: Result<HTMLClass, ParseError>)
    ensures
        match r {
            Ok(c) => spec_parse_class(tokens.deep_view()) == Ok::<
                HTMLClassModel,
                ParseErrorModel,
            >(c@),
            Err(e) => spec_parse_class(tokens.deep_view()) == Err::<
                HTMLClassModel,
                ParseErrorModel,
            >(e@),
        },
{
    let ghost ts = tokens.deep_view();
    let n = tokens.len();
    if !(n > 0 && matches!(&tokens[0], Token::LAngle)) {
        proof {
            if n > 0 {
                assert(ts[0] == tokens@[0]@);
            }
        }
        return Err(ParseError { at: 0, kind: ParseErrorKind::ExpectedClassOpen });
    }
    proof {
        assert(ts[0] == tokens@[0]@);
    }
    if n < 2 {
        return Err(ParseError { at: 1, kind: ParseErrorKind::ExpectedClassName });
    }
    let name: String = match &tokens[1] {
        Token::Word(w) => w.clone(),
        _ => {
            proof {
                assert(ts[1] == tokens@[1]@);
            }
            return Err(ParseError { at: 1, kind: ParseErrorKind::ExpectedClassName });
        },
    };
    proof {
        assert(ts[1] == tokens@[1]@);
        assert(ts[1]->Word_0 == name@);
    }
    let mut attrs: Vec<(String, String)> = Vec::new();
    let mut i: usize = 2;
    let ghost mut attrs_model = Seq::<(Seq<char>, Seq<char>)>::empty();
    proof {
        assert(attrs@.len() == 0);
        assert(Seq::new(attrs@.len(), |q: int| (attrs@[q].0@, attrs@[q].1@)) =~= attrs_model);
    }
    while i < n
        invariant
            2 <= i <= n,
            n == tokens.len(),
            ts == tokens.deep_view(),
            name@ == ts[1]->Word_0,
            Seq::new(attrs@.len(), |q: int| (attrs@[q].0@, attrs@[q].1@)) == attrs_model,
            spec_parse_class(ts) == spec_attr_loop(ts, i as int, name@, attrs_model),
        decreases n - i,
    {
        match &tokens[i] {
            Token::Whitespace => {
                proof {
                    assert(ts[i as int] == tokens@[i as int]@);
                }
                i += 1;
            },
            Token::Tabspace => {
                proof {
                    assert(ts[i as int] == tokens@[i as int]@);
                }
                i += 1;
            },
            Token::RAngle => {
                proof {
                    assert(ts[i as int] == tokens@[i as int]@);
                }
                let b = body_run_from(tokens, i + 1);
                let j = i + 1 + b;
                proof {
                    assert(ts.skip(i + 1) == ts.skip(i as int + 1));
                }
                if j >= n {
                    return Err(ParseError { at: j, kind: ParseErrorKind::UnterminatedClass });
                }
                let name_ok = n - j > 1 && matches!(&tokens[j + 1], Token::Word(_));
                if !name_ok {
                    proof {
                        if j + 1 < n {
                            assert(ts[j + 1] == tokens@[j + 1]@);
                        }
                    }
                    return Err(ParseError { at: j + 1, kind: ParseErrorKind::ExpectedClassName });
                }
                proof {
                    assert(ts[j + 1] == tokens@[j + 1]@);
                }
                if !(n - j > 2 && matches!(&tokens[j + 2], Token::RAngle)) {
                    proof {
                        if j + 2 < n {
                            assert(ts[j + 2] == tokens@[j + 2]@);
                        }
                    }
                    return Err(ParseError { at: j + 2, kind: ParseErrorKind::UnterminatedClass });
                }
                proof {
                    assert(ts[j + 2] == tokens@[j + 2]@);
                }
                let closing: &String = match &tokens[j + 1] {
                    Token::Word(w) => w,
                    _ => {
                        proof {
                            assert(false);
                        }
                        return Err(
                            ParseError { at: j + 1, kind: ParseErrorKind::ExpectedClassName },
                        );
                    },
                };
                proof {
                    assert(ts[j + 1]->Word_0 == closing@);
                }
                let closing_chars = crate::lexer::str_chars(closing.as_str());
                let name_chars = crate::lexer::str_chars(name.as_str());
                if !crate::regex::chars_eq(&closing_chars, &name_chars) {
                    return Err(ParseError { at: j + 1, kind: ParseErrorKind::ClassNameMismatch });
                }
                if j + 3 != n {
                    return Err(ParseError { at: j + 3, kind: ParseErrorKind::ExpectedEndOfInput });
                }
                let text = clone_tokens_range(tokens, i + 1, j);
                let c = HTMLClass { name, attributes: attrs, text };
                proof {
                    assert(c@.name == ts[1]->Word_0);
                    assert(c@.attributes =~= attrs_model);
                    assert(c@.text =~= ts.subrange(i as int + 1, j as int));
                }
                return Ok(c);
            },
            Token::Word(k) => {
                proof {
                    assert(ts[i as int] == tokens@[i as int]@);
                }
                let well_formed = n - i > 2 && matches!(&tokens[i + 1], Token::Equal) && matches!(
                    &tokens[i + 2],
                    Token::Word(_),
                );
                proof {
                    if i + 2 < n {
                        assert(ts[i + 1] == tokens@[i + 1]@);
                        assert(ts[i + 2] == tokens@[i + 2]@);
                    }
                }
                if !well_formed {
                    return Err(ParseError { at: i, kind: ParseErrorKind::MalformedAttribute });
                }
                let value: String = match &tokens[i + 2] {
                    Token::Word(v) => v.clone(),
                    _ => {
                        proof {
                            assert(false);
                        }
                        return Err(
                            ParseError { at: i, kind: ParseErrorKind::MalformedAttribute },
                        );
                    },
                };
                let key = k.clone();
                let ghost prev = attrs@;
                let ghost prev_model = attrs_model;
                attrs.push((key, value));
                proof {
                    attrs_model = prev_model.push((ts[i as int]->Word_0, ts[i + 2]->Word_0));
                    assert(attrs@ == prev.push(attrs@[attrs@.len() - 1]));
                    assert(attrs@[attrs@.len() - 1].0@ == ts[i as int]->Word_0);
                    assert(attrs@[attrs@.len() - 1].1@ == ts[i + 2]->Word_0);
                    assert(Seq::new(attrs@.len(), |q: int| (attrs@[q].0@, attrs@[q].1@))
                        =~= attrs_model);
                }
                i += 3;
            },
            _ => {
                proof {
                    assert(ts[i as int] == tokens@[i as int]@);
                    assert(!(ts[i as int] is Whitespace || ts[i as int] is Tabspace
                        || ts[i as int] is RAngle || ts[i as int] is Word));
                }
                return Err(ParseError { at: i, kind: ParseErrorKind::UnexpectedToken });
            },
        }
    }
    Err(ParseError { at: n, kind: ParseErrorKind::UnterminatedClass })
}

} // verus!
