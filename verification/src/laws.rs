//! What holds of every parse: how the counts, the values and the positional
//! arguments that a parser ends with follow from the tokens it read.
//!
//! The laws that hold of every input are stated over the trace of a run,
//! which says what each token was taken for. For inputs of one kind (flags
//! alone, options with their values alone, no options at all, a `--` after
//! tokens that are all read) the same is stated over the tokens themselves.
//! All are proved from the definition of `run`.

use vstd::prelude::*;
use crate::model::{
    asks_help, classify, cluster, enters_command, inline_name, inline_value, lemma_bump_wf,
    lemma_keep, lemma_supply, repeat, run, step, ParserView, Role, Run, Step, TokenClass,
};
use crate::text::{is_digit, strip_dashes};

verus! {

/// Whether `name` is an alias of the entry at `index`.
pub open spec fn leads_to(map: Map<Seq<char>, usize>, name: Seq<char>, index: int) -> bool {
    map.contains_key(name) && map[name] == index
}

/// How many of the first `n` names of the cluster `t` are aliases of the
/// flag at `index`.
pub open spec fn cluster_hits(flag_map: Map<Seq<char>, usize>, index: int, t: Seq<char>, n: int) -> int
    decreases n,
{
    if n <= 0 {
        0
    } else {
        cluster_hits(flag_map, index, t, n - 1) + if leads_to(flag_map, seq![t[n]], index) {
            1int
        } else {
            0int
        }
    }
}

/// How often the token `t`, taken for `role`, names the flag at `index`:
/// once for a long name that is an alias of it, and once for each character
/// of a cluster that is, as far as the names of the token were acted on.
pub open spec fn token_hits(flag_map: Map<Seq<char>, usize>, index: int, t: Seq<char>, role: Role) -> int {
    match role {
        Role::Switch(n) => match classify(t) {
            TokenClass::Long => if n >= 1 && leads_to(flag_map, t.skip(2), index) {
                1
            } else {
                0
            },
            TokenClass::Cluster => cluster_hits(flag_map, index, t, n as int),
            _ => 0,
        },
        _ => 0,
    }
}

/// How often the tokens from `cursor` on, taken for the roles in `trace`,
/// name the flag at `index`.
pub open spec fn hits(
    flag_map: Map<Seq<char>, usize>,
    index: int,
    tokens: Seq<Seq<char>>,
    cursor: int,
    trace: Seq<Role>,
) -> int
    decreases trace.len(),
{
    if trace.len() == 0 {
        0
    } else {
        token_hits(flag_map, index, tokens[cursor], trace[0]) + hits(
            flag_map,
            index,
            tokens,
            cursor + 1,
            trace.drop_first(),
        )
    }
}

/// The value that the token `t`, taken for `role`, supplies to the option
/// at `index`: the token itself where it was taken as a value of that
/// option, the value side of a `name=value` whose name is an alias of it.
pub open spec fn token_supplies(
    option_map: Map<Seq<char>, usize>,
    index: int,
    t: Seq<char>,
    role: Role,
) -> Seq<Seq<char>> {
    match role {
        Role::Value(k) => if k == index {
            seq![t]
        } else {
            Seq::empty()
        },
        Role::Switch(n) => if n >= 1 && classify(t) == TokenClass::Inline && leads_to(
            option_map,
            strip_dashes(inline_name(t)),
            index,
        ) {
            seq![inline_value(t)]
        } else {
            Seq::empty()
        },
        _ => Seq::empty(),
    }
}

/// The values that the tokens from `cursor` on, taken for the roles in
/// `trace`, supply to the option at `index`, in input order.
pub open spec fn supplied(
    option_map: Map<Seq<char>, usize>,
    index: int,
    tokens: Seq<Seq<char>>,
    cursor: int,
    trace: Seq<Role>,
) -> Seq<Seq<char>>
    decreases trace.len(),
{
    if trace.len() == 0 {
        Seq::empty()
    } else {
        token_supplies(option_map, index, tokens[cursor], trace[0]) + supplied(
            option_map,
            index,
            tokens,
            cursor + 1,
            trace.drop_first(),
        )
    }
}

/// The tokens from `cursor` on that `trace` takes for positional arguments,
/// in input order.
pub open spec fn positionals(tokens: Seq<Seq<char>>, cursor: int, trace: Seq<Role>) -> Seq<Seq<char>>
    decreases trace.len(),
{
    if trace.len() == 0 {
        Seq::empty()
    } else {
        let rest = positionals(tokens, cursor + 1, trace.drop_first());
        if trace[0] is Positional {
            seq![tokens[cursor]] + rest
        } else {
            rest
        }
    }
}

/// Whether a token of the class `class` can be taken for `role`: only `--`
/// is the end-of-options marker, only a token with a leading dash that is
/// no literal is a switch, only a word is a command or the `help` command.
pub open spec fn fits(role: Role, class: TokenClass) -> bool {
    match role {
        Role::Sentinel => class == TokenClass::EndOfOptions,
        Role::Switch(_) => class == TokenClass::Long || class == TokenClass::Inline || class
            == TokenClass::Cluster,
        Role::Command => class == TokenClass::Word,
        Role::HelpWord => class == TokenClass::Word,
        _ => true,
    }
}

/// Reading two stretches of tokens one after the other adds up what each
/// of them gives.
pub proof fn lemma_concat(
    p: ParserView,
    tokens: Seq<Seq<char>>,
    cursor: int,
    a: Seq<Role>,
    b: Seq<Role>,
)
    ensures
        positionals(tokens, cursor, a + b) == positionals(tokens, cursor, a) + positionals(
            tokens,
            cursor + a.len(),
            b,
        ),
        forall|i: int|
            #[trigger] hits(p.flag_map, i, tokens, cursor, a + b) == hits(
                p.flag_map,
                i,
                tokens,
                cursor,
                a,
            ) + hits(p.flag_map, i, tokens, cursor + a.len(), b),
        forall|i: int|
            #[trigger] supplied(p.option_map, i, tokens, cursor, a + b) == supplied(
                p.option_map,
                i,
                tokens,
                cursor,
                a,
            ) + supplied(p.option_map, i, tokens, cursor + a.len(), b),
    decreases a.len(),
{
    if a.len() == 0 {
        assert(a + b =~= b);
        assert(positionals(tokens, cursor, a) + positionals(tokens, cursor, b) =~= positionals(
            tokens,
            cursor,
            b,
        ));
        assert forall|i: int|
            #[trigger] supplied(p.option_map, i, tokens, cursor, a + b) == supplied(
                p.option_map,
                i,
                tokens,
                cursor,
                a,
            ) + supplied(p.option_map, i, tokens, cursor + a.len(), b) by {
            assert(supplied(p.option_map, i, tokens, cursor, a) + supplied(
                p.option_map,
                i,
                tokens,
                cursor,
                b,
            ) =~= supplied(p.option_map, i, tokens, cursor, b));
        }
    } else {
        let rest = a.drop_first();
        lemma_concat(p, tokens, cursor + 1, rest, b);
        assert((a + b).drop_first() =~= rest + b);
        assert((a + b)[0] == a[0]);
        let head = if a[0] is Positional {
            seq![tokens[cursor]]
        } else {
            Seq::empty()
        };
        assert(positionals(tokens, cursor, a + b) =~= head + positionals(tokens, cursor + 1, rest + b));
        assert(positionals(tokens, cursor, a) =~= head + positionals(tokens, cursor + 1, rest));
        assert(positionals(tokens, cursor, a + b) =~= positionals(tokens, cursor, a) + positionals(
            tokens,
            cursor + a.len(),
            b,
        ));
        assert forall|i: int|
            #[trigger] supplied(p.option_map, i, tokens, cursor, a + b) == supplied(
                p.option_map,
                i,
                tokens,
                cursor,
                a,
            ) + supplied(p.option_map, i, tokens, cursor + a.len(), b) by {
            let first = token_supplies(p.option_map, i, tokens[cursor], a[0]);
            assert(supplied(p.option_map, i, tokens, cursor, a + b) =~= first + supplied(
                p.option_map,
                i,
                tokens,
                cursor + 1,
                rest + b,
            ));
            assert(supplied(p.option_map, i, tokens, cursor, a) =~= first + supplied(
                p.option_map,
                i,
                tokens,
                cursor + 1,
                rest,
            ));
            assert(first + (supplied(p.option_map, i, tokens, cursor + 1, rest) + supplied(
                p.option_map,
                i,
                tokens,
                cursor + 1 + rest.len(),
                b,
            )) =~= (first + supplied(p.option_map, i, tokens, cursor + 1, rest)) + supplied(
                p.option_map,
                i,
                tokens,
                cursor + a.len(),
                b,
            ));
        }
        assert forall|i: int|
            #[trigger] hits(p.flag_map, i, tokens, cursor, a + b) == hits(
                p.flag_map,
                i,
                tokens,
                cursor,
                a,
            ) + hits(p.flag_map, i, tokens, cursor + a.len(), b) by {
            assert(hits(p.flag_map, i, tokens, cursor + 1, rest + b) == hits(
                p.flag_map,
                i,
                tokens,
                cursor + 1,
                rest,
            ) + hits(p.flag_map, i, tokens, cursor + 1 + rest.len(), b));
        }
    }
}

/// What no parse changes: what is registered, and under which names.
pub open spec fn same_registry(p: ParserView, q: ParserView) -> bool {
    &&& q.helptext == p.helptext
    &&& q.version == p.version
    &&& q.option_map == p.option_map
    &&& q.flag_map == p.flag_map
    &&& q.flags.len() == p.flags.len()
    &&& q.options.len() == p.options.len()
    &&& forall|i: int|
        0 <= i < p.options.len() ==> (#[trigger] q.options[i]).default == p.options[i].default
    &&& q.has_callback == p.has_callback
    &&& q.cmd_help == p.cmd_help
}

/// The parser `q` is what `p` becomes by reading the tokens from `cursor`
/// on as `trace` says: each count has grown by the number of times the
/// tokens name the flag, each option has got the values that the tokens
/// supply to it, in input order, and the positional arguments have got the
/// tokens taken for positional, in input order. Nothing else that can be
/// asked of a parser by name has changed.
pub open spec fn accounts(
    p: ParserView,
    q: ParserView,
    tokens: Seq<Seq<char>>,
    cursor: int,
    trace: Seq<Role>,
) -> bool {
    &&& same_registry(p, q)
    &&& q.args == p.args + positionals(tokens, cursor, trace)
    &&& forall|i: int|
        0 <= i < p.flags.len() ==> #[trigger] q.flags[i] == p.flags[i] + hits(
            p.flag_map,
            i,
            tokens,
            cursor,
            trace,
        )
    &&& forall|i: int|
        0 <= i < p.options.len() ==> (#[trigger] q.options[i]).values == p.options[i].values
            + supplied(p.option_map, i, tokens, cursor, trace)
}

/// Reading nothing changes nothing.
pub proof fn lemma_accounts_nothing(p: ParserView, tokens: Seq<Seq<char>>, cursor: int)
    ensures
        accounts(p, p, tokens, cursor, Seq::empty()),
{
    assert(p.args + positionals(tokens, cursor, Seq::empty()) =~= p.args);
    assert forall|i: int| 0 <= i < p.options.len() implies (#[trigger] p.options[i]).values
        == p.options[i].values + supplied(p.option_map, i, tokens, cursor, Seq::empty()) by {
        assert(p.options[i].values + supplied(p.option_map, i, tokens, cursor, Seq::empty())
            =~= p.options[i].values);
    }
}

/// What two stretches of tokens do one after the other is what the two
/// stretches do as one.
pub proof fn lemma_accounts_then(
    p: ParserView,
    q: ParserView,
    r: ParserView,
    tokens: Seq<Seq<char>>,
    cursor: int,
    a: Seq<Role>,
    b: Seq<Role>,
)
    requires
        accounts(p, q, tokens, cursor, a),
        accounts(q, r, tokens, cursor + a.len(), b),
    ensures
        accounts(p, r, tokens, cursor, a + b),
{
    lemma_concat(p, tokens, cursor, a, b);
    assert(r.args =~= p.args + positionals(tokens, cursor, a + b));
    assert forall|i: int| 0 <= i < p.flags.len() implies #[trigger] r.flags[i] == p.flags[i]
        + hits(p.flag_map, i, tokens, cursor, a + b) by {
        assert(q.flags[i] == p.flags[i] + hits(p.flag_map, i, tokens, cursor, a));
    }
    assert forall|i: int| 0 <= i < p.options.len() implies (#[trigger] r.options[i]).values
        == p.options[i].values + supplied(p.option_map, i, tokens, cursor, a + b) by {
        assert(q.options[i].values == p.options[i].values + supplied(
            p.option_map,
            i,
            tokens,
            cursor,
            a,
        ));
        assert(q.options[i].default == p.options[i].default);
        assert(r.options[i].values =~= p.options[i].values + (supplied(
            p.option_map,
            i,
            tokens,
            cursor,
            a,
        ) + supplied(p.option_map, i, tokens, cursor + a.len(), b)));
    }
}

/// The number of names of a switch that were acted on; -1 for another role.
pub open spec fn acted_on(role: Role) -> int {
    match role {
        Role::Switch(n) => n as int,
        _ => -1,
    }
}

/// What reading the cluster `t` from its character at `j` on does, with
/// `next` the position of the next token to take as a value: `s` is the
/// result, after the parser `p`.
pub open spec fn cluster_accounts(
    p: ParserView,
    s: Step,
    t: Seq<char>,
    j: int,
    tokens: Seq<Seq<char>>,
    next: int,
) -> bool {
    let m = acted_on(s.role);
    &&& s.parser.wf()
    &&& same_registry(p, s.parser)
    &&& s.parser.args == p.args
    &&& j - 1 <= m <= t.len() - 1
    &&& s.status is Parsed ==> m == t.len() - 1
    &&& next + s.extra.len() <= tokens.len()
    &&& forall|i: int|
        0 <= i < p.flags.len() ==> #[trigger] s.parser.flags[i] == p.flags[i] + cluster_hits(
            p.flag_map,
            i,
            t,
            m,
        ) - cluster_hits(p.flag_map, i, t, j - 1)
    &&& forall|i: int|
        0 <= i < p.options.len() ==> (#[trigger] s.parser.options[i]).values
            == p.options[i].values + supplied(p.option_map, i, tokens, next, s.extra)
    &&& positionals(tokens, next, s.extra) == Seq::<Seq<char>>::empty()
    &&& forall|i: int| #[trigger] hits(p.flag_map, i, tokens, next, s.extra) == 0
}

/// A cluster counts each of its characters that is a flag, and hands each
/// of its characters that is an option the next token, in order.
pub proof fn lemma_cluster(p: ParserView, t: Seq<char>, j: int, tokens: Seq<Seq<char>>, next: int)
    requires
        p.wf(),
        1 <= j <= t.len(),
        0 <= next <= tokens.len(),
    ensures
        cluster_accounts(p, cluster(p, t, j, tokens, next), t, j, tokens, next),
    decreases t.len() - j,
{
    let s = cluster(p, t, j, tokens, next);
    if j >= t.len() {
        assert forall|i: int| 0 <= i < p.options.len() implies (#[trigger] s.parser.options[i]).values
            == p.options[i].values + supplied(p.option_map, i, tokens, next, s.extra) by {
            assert(p.options[i].values + Seq::<Seq<char>>::empty() =~= p.options[i].values);
        }
    } else {
        let key = seq![t[j]];
        if p.is_flag(key) {
            let index = p.flag_map[key] as int;
            let q = p.bump(index);
            lemma_bump_wf(p, index);
            lemma_cluster(q, t, j + 1, tokens, next);
            let m = acted_on(s.role);
            assert forall|i: int| 0 <= i < p.flags.len() implies #[trigger] s.parser.flags[i]
                == p.flags[i] + cluster_hits(p.flag_map, i, t, m) - cluster_hits(
                p.flag_map,
                i,
                t,
                j - 1,
            ) by {
                assert(s.parser.flags[i] == q.flags[i] + cluster_hits(q.flag_map, i, t, m)
                    - cluster_hits(q.flag_map, i, t, j));
                assert(leads_to(p.flag_map, key, i) <==> i == index);
            }
            assert forall|i: int| 0 <= i < p.options.len() implies (#[trigger] s.parser.options[i]).values
                == p.options[i].values + supplied(p.option_map, i, tokens, next, s.extra) by {
                assert(q.options[i] == p.options[i]);
            }
        } else if p.is_option(key) {
            if 0 <= next < tokens.len() {
                let index = p.option_map[key] as int;
                let q = p.supply(index, tokens[next]);
                lemma_supply(p, index, tokens[next]);
                lemma_cluster(q, t, j + 1, tokens, next + 1);
                let rest = cluster(q, t, j + 1, tokens, next + 1);
                let m = acted_on(s.role);
                assert(s.extra.drop_first() =~= rest.extra);
                assert(s.extra[0] == Role::Value(index));
                assert forall|i: int| 0 <= i < p.flags.len() implies #[trigger] s.parser.flags[i]
                    == p.flags[i] + cluster_hits(p.flag_map, i, t, m) - cluster_hits(
                    p.flag_map,
                    i,
                    t,
                    j - 1,
                ) by {
                    assert(s.parser.flags[i] == q.flags[i] + cluster_hits(q.flag_map, i, t, m)
                        - cluster_hits(q.flag_map, i, t, j));
                }
                assert forall|i: int| 0 <= i < p.options.len() implies (
                #[trigger] s.parser.options[i]).values == p.options[i].values + supplied(
                    p.option_map,
                    i,
                    tokens,
                    next,
                    s.extra,
                ) by {
                    let tail = supplied(q.option_map, i, tokens, next + 1, rest.extra);
                    assert(rest.parser.options[i].values == q.options[i].values + tail);
                    let head = token_supplies(p.option_map, i, tokens[next], Role::Value(index));
                    assert(supplied(p.option_map, i, tokens, next, s.extra) == head + tail);
                    if i == index {
                        assert(q.options[i].values == p.options[i].values.push(tokens[next]));
                        assert(p.options[i].values.push(tokens[next]) + tail =~= p.options[i].values
                            + (head + tail));
                    } else {
                        assert(q.options[i] == p.options[i]);
                        assert(p.options[i].values + tail =~= p.options[i].values + (head + tail));
                    }
                }
                assert forall|i: int| #[trigger]
                    hits(p.flag_map, i, tokens, next, s.extra) == 0 by {
                    assert(hits(q.flag_map, i, tokens, next + 1, rest.extra) == 0);
                }
            } else {
                assert forall|i: int| 0 <= i < p.options.len() implies (
                #[trigger] s.parser.options[i]).values == p.options[i].values + supplied(
                    p.option_map,
                    i,
                    tokens,
                    next,
                    s.extra,
                ) by {
                    assert(p.options[i].values + Seq::<Seq<char>>::empty() =~= p.options[i].values);
                }
            }
        } else {
            assert forall|i: int| 0 <= i < p.options.len() implies (#[trigger] s.parser.options[i]).values
                == p.options[i].values + supplied(p.option_map, i, tokens, next, s.extra) by {
                assert(p.options[i].values + Seq::<Seq<char>>::empty() =~= p.options[i].values);
            }
        }
    }
}

/// The number of names that a switch holds: each character after the dash
/// of a cluster is one; a long name and a `name=value` hold one.
pub open spec fn names_in(t: Seq<char>) -> int {
    if classify(t) == TokenClass::Cluster {
        t.len() - 1
    } else {
        1
    }
}

/// What reading one token does: `s` is the result of the step that reads
/// the token at `cursor`, after the parser `p`.
pub open spec fn step_accounts(p: ParserView, s: Step, tokens: Seq<Seq<char>>, cursor: int) -> bool {
    &&& s.parser.wf()
    &&& accounts(p, s.parser, tokens, cursor, seq![s.role] + s.extra)
    &&& cursor + 1 + s.extra.len() <= tokens.len()
    &&& fits(s.role, classify(tokens[cursor]))
    &&& s.status is Parsed && s.role is Switch ==> acted_on(s.role) == names_in(tokens[cursor])
    &&& !(s.role is Sentinel)
    &&& !(s.role is Command)
    &&& !(s.role is Nested)
    &&& forall|k: int| 0 <= k < s.extra.len() ==> (#[trigger] s.extra[k]) is Value || s.extra[k] is HelpTopic
}

/// What one token gives is what its role says of it.
pub proof fn lemma_single(p: ParserView, tokens: Seq<Seq<char>>, cursor: int, role: Role)
    ensures
        positionals(tokens, cursor, seq![role]) == if role is Positional {
            seq![tokens[cursor]]
        } else {
            Seq::empty()
        },
        forall|i: int|
            #[trigger] hits(p.flag_map, i, tokens, cursor, seq![role]) == token_hits(
                p.flag_map,
                i,
                tokens[cursor],
                role,
            ),
        forall|i: int|
            #[trigger] supplied(p.option_map, i, tokens, cursor, seq![role]) == token_supplies(
                p.option_map,
                i,
                tokens[cursor],
                role,
            ),
{
    let one = seq![role];
    let none = Seq::<Role>::empty();
    assert(one.drop_first() =~= none);
    assert(positionals(tokens, cursor + 1, none) =~= Seq::<Seq<char>>::empty());
    assert(positionals(tokens, cursor, one) =~= if role is Positional {
        seq![tokens[cursor]]
    } else {
        Seq::empty()
    });
    assert forall|i: int|
        #[trigger] hits(p.flag_map, i, tokens, cursor, one) == token_hits(
            p.flag_map,
            i,
            tokens[cursor],
            role,
        ) by {
        assert(hits(p.flag_map, i, tokens, cursor + 1, none) == 0);
    }
    assert forall|i: int|
        #[trigger] supplied(p.option_map, i, tokens, cursor, one) == token_supplies(
            p.option_map,
            i,
            tokens[cursor],
            role,
        ) by {
        assert(supplied(p.option_map, i, tokens, cursor + 1, none) =~= Seq::<Seq<char>>::empty());
        assert(supplied(p.option_map, i, tokens, cursor, one) =~= token_supplies(
            p.option_map,
            i,
            tokens[cursor],
            role,
        ));
    }
}

/// A parser that differs from `p` by what the token at `cursor` and the
/// tokens after it give, each for its part, is accounted for.
proof fn lemma_accounts_parts(
    p: ParserView,
    q: ParserView,
    tokens: Seq<Seq<char>>,
    cursor: int,
    role: Role,
    extra: Seq<Role>,
)
    requires
        same_registry(p, q),
        q.args == p.args + (if role is Positional {
            seq![tokens[cursor]]
        } else {
            Seq::empty()
        }) + positionals(tokens, cursor + 1, extra),
        forall|i: int|
            0 <= i < p.flags.len() ==> #[trigger] q.flags[i] == p.flags[i] + token_hits(
                p.flag_map,
                i,
                tokens[cursor],
                role,
            ) + hits(p.flag_map, i, tokens, cursor + 1, extra),
        forall|i: int|
            0 <= i < p.options.len() ==> (#[trigger] q.options[i]).values == p.options[i].values
                + token_supplies(p.option_map, i, tokens[cursor], role) + supplied(
                p.option_map,
                i,
                tokens,
                cursor + 1,
                extra,
            ),
    ensures
        accounts(p, q, tokens, cursor, seq![role] + extra),
{
    let one = seq![role];
    lemma_single(p, tokens, cursor, role);
    lemma_concat(p, tokens, cursor, one, extra);
    assert(q.args =~= p.args + positionals(tokens, cursor, one + extra));
    assert forall|i: int| 0 <= i < p.options.len() implies (#[trigger] q.options[i]).values
        == p.options[i].values + supplied(p.option_map, i, tokens, cursor, one + extra) by {
        assert(q.options[i].values =~= p.options[i].values + (token_supplies(
            p.option_map,
            i,
            tokens[cursor],
            role,
        ) + supplied(p.option_map, i, tokens, cursor + 1, extra)));
    }
}

/// A token that is neither the end-of-options marker nor the name of a
/// sub-command changes the parser by what it is taken for, and by nothing
/// else.
pub proof fn lemma_step(p: ParserView, tokens: Seq<Seq<char>>, cursor: int, first: bool)
    requires
        p.wf(),
        0 <= cursor < tokens.len(),
        classify(tokens[cursor]) != TokenClass::EndOfOptions,
    ensures
        step_accounts(p, step(p, tokens, cursor, first), tokens, cursor),
{
    let t = tokens[cursor];
    let s = step(p, tokens, cursor, first);
    let none = Seq::<Seq<char>>::empty();
    let idle = Seq::<Role>::empty();
    assert(positionals(tokens, cursor + 1, idle) =~= none);
    assert forall|i: int| #[trigger] hits(p.flag_map, i, tokens, cursor + 1, idle) == 0 by {}
    assert forall|i: int| #[trigger]
        supplied(p.option_map, i, tokens, cursor + 1, idle) == none by {
        assert(supplied(p.option_map, i, tokens, cursor + 1, idle) =~= none);
    }
    match classify(t) {
        TokenClass::Inline => {
            let key = strip_dashes(inline_name(t));
            assert(s.extra =~= idle);
            assert(s.parser.args =~= p.args + none + none);
            if p.is_option(key) && inline_value(t).len() > 0 {
                let index = p.option_map[key] as int;
                lemma_supply(p, index, inline_value(t));
                assert forall|i: int| 0 <= i < p.options.len() implies (
                #[trigger] s.parser.options[i]).values == p.options[i].values + token_supplies(
                    p.option_map,
                    i,
                    t,
                    s.role,
                ) + none by {
                    let head = token_supplies(p.option_map, i, t, s.role);
                    if i == index {
                        assert(p.options[i].values.push(inline_value(t)) =~= p.options[i].values
                            + head + none);
                    } else {
                        assert(p.options[i].values + head + none =~= p.options[i].values);
                    }
                }
            } else {
                assert forall|i: int| 0 <= i < p.options.len() implies (
                #[trigger] s.parser.options[i]).values == p.options[i].values + token_supplies(
                    p.option_map,
                    i,
                    t,
                    s.role,
                ) + none by {
                    assert(p.options[i].values + none + none =~= p.options[i].values);
                }
            }
        },
        TokenClass::Long => {
            let key = t.skip(2);
            if p.is_flag(key) {
                let index = p.flag_map[key] as int;
                lemma_bump_wf(p, index);
                assert(s.extra =~= idle);
                assert(s.parser.args =~= p.args + none + none);
                assert forall|i: int| 0 <= i < p.flags.len() implies #[trigger] s.parser.flags[i]
                    == p.flags[i] + token_hits(p.flag_map, i, t, s.role) + 0 by {
                    assert(leads_to(p.flag_map, key, i) <==> i == index);
                }
                assert forall|i: int| 0 <= i < p.options.len() implies (
                #[trigger] s.parser.options[i]).values == p.options[i].values + token_supplies(
                    p.option_map,
                    i,
                    t,
                    s.role,
                ) + none by {
                    assert(p.options[i].values + none + none =~= p.options[i].values);
                }
            } else if p.is_option(key) && cursor + 1 < tokens.len() {
                let index = p.option_map[key] as int;
                let value = tokens[cursor + 1];
                lemma_supply(p, index, value);
                lemma_single(p, tokens, cursor + 1, Role::Value(index));
                assert(s.extra =~= seq![Role::Value(index)]);
                assert(s.parser.args =~= p.args + none + none);
                assert forall|i: int| 0 <= i < p.options.len() implies (
                #[trigger] s.parser.options[i]).values == p.options[i].values + token_supplies(
                    p.option_map,
                    i,
                    t,
                    s.role,
                ) + supplied(p.option_map, i, tokens, cursor + 1, s.extra) by {
                    let tail = token_supplies(p.option_map, i, value, Role::Value(index));
                    assert(supplied(p.option_map, i, tokens, cursor + 1, s.extra) == tail);
                    if i == index {
                        assert(p.options[i].values.push(value) =~= p.options[i].values + none
                            + tail);
                    } else {
                        assert(p.options[i].values + none + tail =~= p.options[i].values);
                    }
                }
            } else {
                assert(s.extra =~= idle);
                assert(s.parser.args =~= p.args + none + none);
                assert forall|i: int| 0 <= i < p.options.len() implies (
                #[trigger] s.parser.options[i]).values == p.options[i].values + token_supplies(
                    p.option_map,
                    i,
                    t,
                    s.role,
                ) + none by {
                    assert(p.options[i].values + none + none =~= p.options[i].values);
                }
            }
        },
        TokenClass::Cluster => {
            lemma_cluster(p, t, 1, tokens, cursor + 1);
            lemma_cluster_extra(p, t, 1, tokens, cursor + 1);
            assert(s.parser.args =~= p.args + none + none);
            assert forall|i: int| 0 <= i < p.flags.len() implies #[trigger] s.parser.flags[i]
                == p.flags[i] + token_hits(p.flag_map, i, t, s.role) + hits(
                p.flag_map,
                i,
                tokens,
                cursor + 1,
                s.extra,
            ) by {
                assert(hits(p.flag_map, i, tokens, cursor + 1, s.extra) == 0);
                assert(cluster_hits(p.flag_map, i, t, 0) == 0);
            }
            assert forall|i: int| 0 <= i < p.options.len() implies (
            #[trigger] s.parser.options[i]).values == p.options[i].values + token_supplies(
                p.option_map,
                i,
                t,
                s.role,
            ) + supplied(p.option_map, i, tokens, cursor + 1, s.extra) by {
                assert(p.options[i].values + none + supplied(
                    p.option_map,
                    i,
                    tokens,
                    cursor + 1,
                    s.extra,
                ) =~= p.options[i].values + supplied(p.option_map, i, tokens, cursor + 1, s.extra));
            }
        },
        _ => {
            if asks_help(p, t, first) {
                lemma_single(p, tokens, cursor + 1, Role::HelpTopic);
                if cursor + 1 < tokens.len() {
                    assert(s.extra =~= seq![Role::HelpTopic]);
                } else {
                    assert(s.extra =~= idle);
                }
                assert(s.parser.args =~= p.args + none + none);
                assert forall|i: int| 0 <= i < p.options.len() implies (
                #[trigger] s.parser.options[i]).values == p.options[i].values + token_supplies(
                    p.option_map,
                    i,
                    t,
                    s.role,
                ) + supplied(p.option_map, i, tokens, cursor + 1, s.extra) by {
                    assert(p.options[i].values + none + none =~= p.options[i].values);
                }
            } else {
                lemma_keep(p, seq![t]);
                assert(s.extra =~= idle);
                assert(s.parser.args =~= p.args + seq![t] + none);
                assert forall|i: int| 0 <= i < p.options.len() implies (
                #[trigger] s.parser.options[i]).values == p.options[i].values + token_supplies(
                    p.option_map,
                    i,
                    t,
                    s.role,
                ) + none by {
                    assert(p.options[i].values + none + none =~= p.options[i].values);
                }
            }
        },
    }
    lemma_accounts_parts(p, s.parser, tokens, cursor, s.role, s.extra);
}

/// The tokens that a cluster reads after itself are all taken as values.
pub proof fn lemma_cluster_extra(p: ParserView, t: Seq<char>, j: int, tokens: Seq<Seq<char>>, next: int)
    requires
        1 <= j <= t.len(),
    ensures
        forall|k: int|
            0 <= k < cluster(p, t, j, tokens, next).extra.len() ==> (#[trigger] cluster(
                p,
                t,
                j,
                tokens,
                next,
            ).extra[k]) is Value,
    decreases t.len() - j,
{
    if j < t.len() {
        let key = seq![t[j]];
        if p.is_flag(key) {
            lemma_cluster_extra(p.bump(p.flag_map[key] as int), t, j + 1, tokens, next);
        } else if p.is_option(key) && 0 <= next < tokens.len() {
            let index = p.option_map[key] as int;
            lemma_cluster_extra(p.supply(index, tokens[next]), t, j + 1, tokens, next + 1);
        }
    }
}

/// A stretch of tokens that are all positional gives those tokens, and a
/// stretch that a sub-command reads gives nothing; neither names a flag or
/// supplies a value.
pub proof fn lemma_uniform(p: ParserView, tokens: Seq<Seq<char>>, cursor: int, role: Role, n: int)
    requires
        role is Positional || role is Nested,
        0 <= cursor,
        0 <= n,
        cursor + n <= tokens.len(),
    ensures
        positionals(tokens, cursor, repeat(role, n)) == if role is Positional {
            tokens.subrange(cursor, cursor + n)
        } else {
            Seq::empty()
        },
        forall|i: int| #[trigger] hits(p.flag_map, i, tokens, cursor, repeat(role, n)) == 0,
        forall|i: int|
            #[trigger] supplied(p.option_map, i, tokens, cursor, repeat(role, n)) == Seq::<
                Seq<char>,
            >::empty(),
    decreases n,
{
    let trace = repeat(role, n);
    let none = Seq::<Seq<char>>::empty();
    if n == 0 {
        assert(positionals(tokens, cursor, trace) =~= tokens.subrange(cursor, cursor));
        assert forall|i: int| #[trigger]
            supplied(p.option_map, i, tokens, cursor, trace) == none by {
            assert(supplied(p.option_map, i, tokens, cursor, trace) =~= none);
        }
    } else {
        lemma_uniform(p, tokens, cursor + 1, role, n - 1);
        assert(trace.drop_first() =~= repeat(role, n - 1));
        if role is Positional {
            assert(positionals(tokens, cursor, trace) =~= tokens.subrange(cursor, cursor + n));
        }
        assert forall|i: int| #[trigger]
            supplied(p.option_map, i, tokens, cursor, trace) == none by {
            assert(supplied(p.option_map, i, tokens, cursor + 1, repeat(role, n - 1)) == none);
            assert(supplied(p.option_map, i, tokens, cursor, trace) =~= none);
        }
        assert forall|i: int| #[trigger] hits(p.flag_map, i, tokens, cursor, trace) == 0 by {
            assert(hits(p.flag_map, i, tokens, cursor + 1, repeat(role, n - 1)) == 0);
        }
    }
}

/// What a run does: `r` is the result of parsing the tokens from `cursor`
/// on with the parser `p`.
pub open spec fn run_accounts(p: ParserView, r: Run, tokens: Seq<Seq<char>>, cursor: int) -> bool {
    &&& r.parser.wf()
    &&& accounts(p, r.parser, tokens, cursor, r.trace)
    &&& r.cursor == cursor + r.trace.len()
    &&& r.cursor <= tokens.len()
    &&& r.status is Parsed ==> r.cursor == tokens.len()
    &&& forall|k: int|
        0 <= k < r.trace.len() ==> fits(#[trigger] r.trace[k], classify(tokens[cursor + k]))
    &&& forall|k: int|
        0 <= k < r.trace.len() && r.status is Parsed && (#[trigger] r.trace[k]) is Switch
            ==> acted_on(r.trace[k]) == names_in(tokens[cursor + k])
    &&& forall|k: int| 0 <= k < r.trace.len() && (#[trigger] r.trace[k]) is Sentinel ==> r.status is Parsed
    &&& forall|k: int, j: int|
        0 <= k < j < r.trace.len() && (#[trigger] r.trace[k]) is Sentinel ==> (
        #[trigger] r.trace[j]) is Positional
}

/// Every run is accounted for by its trace.
pub proof fn lemma_run(p: ParserView, tokens: Seq<Seq<char>>, cursor: int, first: bool)
    requires
        p.wf(),
        0 <= cursor <= tokens.len(),
    ensures
        run_accounts(p, run(p, tokens, cursor, first), tokens, cursor),
    decreases tokens.len() - cursor,
{
    let r = run(p, tokens, cursor, first);
    let none = Seq::<Seq<char>>::empty();
    if cursor >= tokens.len() {
        lemma_accounts_nothing(p, tokens, cursor);
    } else if classify(tokens[cursor]) == TokenClass::EndOfOptions {
        let tail = tokens.skip(cursor + 1);
        let after = repeat(Role::Positional, tail.len() as int);
        lemma_uniform(p, tokens, cursor + 1, Role::Positional, tail.len() as int);
        lemma_keep(p, tail);
        assert(tokens.subrange(cursor + 1, cursor + 1 + tail.len()) =~= tail);
        assert(r.parser.args =~= p.args + none + tail);
        assert forall|i: int| 0 <= i < p.options.len() implies (#[trigger] r.parser.options[i]).values
            == p.options[i].values + token_supplies(
            p.option_map,
            i,
            tokens[cursor],
            Role::Sentinel,
        ) + supplied(p.option_map, i, tokens, cursor + 1, after) by {
            assert(p.options[i].values + none + none =~= p.options[i].values);
        }
        lemma_accounts_parts(p, r.parser, tokens, cursor, Role::Sentinel, after);
    } else if enters_command(p, tokens[cursor], first) {
        let name = tokens[cursor];
        let sub = p.commands[p.command_map[name] as int];
        lemma_run(sub, tokens, cursor + 1, true);
        let inner = run(sub, tokens, cursor + 1, true);
        let after = repeat(Role::Nested, inner.trace.len() as int);
        lemma_uniform(p, tokens, cursor + 1, Role::Nested, inner.trace.len() as int);
        assert(r.parser.args =~= p.args + none + none);
        assert forall|i: int| 0 <= i < p.options.len() implies (#[trigger] r.parser.options[i]).values
            == p.options[i].values + token_supplies(
            p.option_map,
            i,
            tokens[cursor],
            Role::Command,
        ) + supplied(p.option_map, i, tokens, cursor + 1, after) by {
            assert(p.options[i].values + none + none =~= p.options[i].values);
        }
        lemma_accounts_parts(p, r.parser, tokens, cursor, Role::Command, after);
    } else {
        let s = step(p, tokens, cursor, first);
        let head = seq![s.role] + s.extra;
        let next = cursor + 1 + s.extra.len();
        lemma_step(p, tokens, cursor, first);
        if s.status is Parsed {
            lemma_run(s.parser, tokens, next, false);
            let rest = run(s.parser, tokens, next, false);
            lemma_accounts_then(p, s.parser, rest.parser, tokens, cursor, head, rest.trace);
            assert(r.trace =~= head + rest.trace);
            assert forall|k: int| 0 <= k < r.trace.len() implies fits(
                #[trigger] r.trace[k],
                classify(tokens[cursor + k]),
            ) by {
                if k == 0 {
                } else if k < head.len() {
                    assert(r.trace[k] == s.extra[k - 1]);
                } else {
                    assert(r.trace[k] == rest.trace[k - head.len()]);
                }
            }
            assert forall|k: int|
                0 <= k < r.trace.len() && r.status is Parsed && (
                #[trigger] r.trace[k]) is Switch implies acted_on(r.trace[k]) == names_in(
                tokens[cursor + k],
            ) by {
                if k == 0 {
                } else if k < head.len() {
                    assert(r.trace[k] == s.extra[k - 1]);
                } else {
                    assert(r.trace[k] == rest.trace[k - head.len()]);
                }
            }
            assert forall|k: int| 0 <= k < r.trace.len() && (
            #[trigger] r.trace[k]) is Sentinel implies r.status is Parsed && k >= head.len() by {
                if k == 0 {
                } else if k < head.len() {
                    assert(r.trace[k] == s.extra[k - 1]);
                } else {
                    assert(r.trace[k] == rest.trace[k - head.len()]);
                }
            }
            assert forall|k: int, j: int|
                0 <= k < j < r.trace.len() && (#[trigger] r.trace[k]) is Sentinel implies (
            #[trigger] r.trace[j]) is Positional by {
                assert(k >= head.len());
                assert(r.trace[k] == rest.trace[k - head.len()]);
                assert(r.trace[j] == rest.trace[j - head.len()]);
            }
        } else {
            assert(r.trace =~= head);
            assert forall|k: int| 0 <= k < r.trace.len() implies fits(
                #[trigger] r.trace[k],
                classify(tokens[cursor + k]),
            ) && !(r.trace[k] is Sentinel) by {
                if k > 0 {
                    assert(r.trace[k] == s.extra[k - 1]);
                }
            }
        }
    }
}

/// Parsing keeps every alias valid, reads no token twice, and reads them
/// all unless it stops early.
pub proof fn law_run_ends(p: ParserView, tokens: Seq<Seq<char>>, cursor: int, first: bool)
    requires
        p.wf(),
        0 <= cursor <= tokens.len(),
    ensures
        ({
            let r = run(p, tokens, cursor, first);
            &&& r.parser.wf()
            &&& same_registry(p, r.parser)
            &&& cursor <= r.cursor <= tokens.len()
            &&& r.trace.len() == r.cursor - cursor
            &&& r.status is Parsed ==> r.cursor == tokens.len()
        }),
{
    lemma_run(p, tokens, cursor, first);
}

/// The count of a flag after a parse is its count before, plus one for
/// each `--alias` of it and one for each character of a cluster that is an
/// alias of it, among the names that the parser acted on. Where the parse
/// read every token, it acted on every name of every switch it read.
pub proof fn law_flag_count(
    p: ParserView,
    tokens: Seq<Seq<char>>,
    cursor: int,
    first: bool,
    name: Seq<char>,
)
    requires
        p.wf(),
        0 <= cursor <= tokens.len(),
        p.is_flag(name),
    ensures
        ({
            let r = run(p, tokens, cursor, first);
            &&& r.parser.is_flag(name)
            &&& r.parser.count_of(name) == p.count_of(name) + hits(
                p.flag_map,
                p.flag_map[name] as int,
                tokens,
                cursor,
                r.trace,
            )
            &&& r.status is Parsed ==> forall|k: int|
                0 <= k < r.trace.len() && (#[trigger] r.trace[k]) is Switch ==> acted_on(r.trace[k])
                    == names_in(tokens[cursor + k])
        }),
{
    lemma_run(p, tokens, cursor, first);
    let r = run(p, tokens, cursor, first);
    let index = p.flag_map[name] as int;
    assert(r.parser.flags[index] == p.flags[index] + hits(p.flag_map, index, tokens, cursor, r.trace));
}

/// The values of an option after a parse are its values before, followed
/// by the values that the tokens supplied to it, in the order of the
/// tokens.
pub proof fn law_option_values(
    p: ParserView,
    tokens: Seq<Seq<char>>,
    cursor: int,
    first: bool,
    name: Seq<char>,
)
    requires
        p.wf(),
        0 <= cursor <= tokens.len(),
        p.is_option(name),
    ensures
        ({
            let r = run(p, tokens, cursor, first);
            &&& r.parser.is_option(name)
            &&& r.parser.values_of(name) == p.values_of(name) + supplied(
                p.option_map,
                p.option_map[name] as int,
                tokens,
                cursor,
                r.trace,
            )
        }),
{
    lemma_run(p, tokens, cursor, first);
    let r = run(p, tokens, cursor, first);
    let index = p.option_map[name] as int;
    assert(r.parser.options[index].values == p.options[index].values + supplied(
        p.option_map,
        index,
        tokens,
        cursor,
        r.trace,
    ));
}

/// The value of an option is the last of its values where it has any, and
/// its default where it has none; its count is the number of its values
/// unless the name is a flag too.
pub proof fn law_value_is_last(p: ParserView, name: Seq<char>)
    ensures
        p.values_of(name).len() > 0 ==> p.value_of(name) == p.values_of(name).last(),
        p.values_of(name).len() == 0 ==> p.value_of(name) == p.options[p.option_map[name] as int].default,
        !p.is_flag(name) ==> p.count_of(name) == p.values_of(name).len(),
{
}

/// Where a parser reads `--`, every token after it becomes a positional
/// argument as it stands, and the parse ends with every token read.
pub proof fn law_end_of_options(p: ParserView, tokens: Seq<Seq<char>>, cursor: int, first: bool)
    requires
        0 <= cursor < tokens.len(),
        tokens[cursor] == seq!['-', '-'],
    ensures
        ({
            let r = run(p, tokens, cursor, first);
            &&& r.parser == p.keep(tokens.skip(cursor + 1))
            &&& r.parser.args == p.args + tokens.skip(cursor + 1)
            &&& r.status is Parsed
            &&& r.cursor == tokens.len()
        }),
{
}

/// Only `--` is taken for the end-of-options marker. Once a token was, the
/// parse reads every token, each one after the marker is taken for a
/// positional argument, and the positional arguments end with the tokens
/// after the marker as they stand.
pub proof fn law_after_sentinel(
    p: ParserView,
    tokens: Seq<Seq<char>>,
    cursor: int,
    first: bool,
    k: int,
)
    requires
        p.wf(),
        0 <= cursor <= tokens.len(),
        0 <= k < run(p, tokens, cursor, first).trace.len(),
        run(p, tokens, cursor, first).trace[k] is Sentinel,
    ensures
        ({
            let r = run(p, tokens, cursor, first);
            &&& tokens[cursor + k] == seq!['-', '-']
            &&& r.status is Parsed
            &&& r.cursor == tokens.len()
            &&& forall|j: int| k < j < r.trace.len() ==> (#[trigger] r.trace[j]) is Positional
            &&& r.parser.args == p.args + positionals(tokens, cursor, r.trace.take(k))
                + tokens.skip(cursor + k + 1)
        }),
{
    lemma_run(p, tokens, cursor, first);
    let r = run(p, tokens, cursor, first);
    let t = tokens[cursor + k];
    assert(fits(r.trace[k], classify(t)));
    assert(t =~= seq!['-', '-']);
    let before = r.trace.take(k + 1);
    let after = r.trace.skip(k + 1);
    let n = after.len() as int;
    assert(r.trace =~= before + after);
    assert(after =~= repeat(Role::Positional, n)) by {
        assert forall|j: int| 0 <= j < n implies after[j] == Role::Positional by {
            assert(r.trace[k + 1 + j] is Positional);
        }
    }
    lemma_concat(p, tokens, cursor, before, after);
    lemma_uniform(p, tokens, cursor + k + 1, Role::Positional, n);
    assert(tokens.subrange(cursor + k + 1, cursor + k + 1 + n) =~= tokens.skip(cursor + k + 1));
    assert(before =~= r.trace.take(k) + seq![r.trace[k]]);
    lemma_concat(p, tokens, cursor, r.trace.take(k), seq![r.trace[k]]);
    lemma_single(p, tokens, cursor + k, r.trace[k]);
    assert(positionals(tokens, cursor, before) =~= positionals(tokens, cursor, r.trace.take(k)));
}

/// Where the first token that a parser reads is the name of one of its
/// sub-commands, the sub-command's parser reads every token after it. Where
/// it parses them all, it is kept under that name and the other
/// sub-commands are given up; where it stops early, the parse stops as it
/// did and all sub-commands are given up. The parser's own counts, values
/// and positional arguments stay as they were.
pub proof fn law_command(p: ParserView, tokens: Seq<Seq<char>>, cursor: int)
    requires
        0 <= cursor < tokens.len(),
        tokens[cursor].len() == 0 || tokens[cursor][0] != '-',
        p.is_command(tokens[cursor]),
    ensures
        ({
            let name = tokens[cursor];
            let r = run(p, tokens, cursor, true);
            let inner = run(p.commands[p.command_map[name] as int], tokens, cursor + 1, true);
            &&& r.status == inner.status
            &&& r.cursor == inner.cursor
            &&& r.parser == if inner.status is Parsed {
                p.entered(name, inner.parser)
            } else {
                p.without_commands()
            }
            &&& r.parser.args == p.args
            &&& r.parser.flags == p.flags
            &&& r.parser.options == p.options
        }),
{
}

/// A token that is `-` alone, or a dash followed by an ASCII digit.
pub open spec fn is_literal(t: Seq<char>) -> bool {
    t.len() >= 1 && t[0] == '-' && (t.len() == 1 || is_digit(t[1]))
}

/// Where a parser reads `-` or a dash followed by a digit, the token is
/// appended to the positional arguments as it stands, whatever is
/// registered: no count and no value changes, no further token is taken
/// with it and no error comes of it. The parse goes on with the token
/// after it.
pub proof fn law_literal_is_positional(p: ParserView, tokens: Seq<Seq<char>>, cursor: int, first: bool)
    requires
        0 <= cursor < tokens.len(),
        is_literal(tokens[cursor]),
    ensures
        ({
            let r = run(p, tokens, cursor, first);
            let kept = p.keep(seq![tokens[cursor]]);
            let rest = run(kept, tokens, cursor + 1, false);
            &&& kept.args == p.args.push(tokens[cursor])
            &&& kept.flags == p.flags
            &&& kept.options == p.options
            &&& r.trace[0] is Positional
            &&& r.parser == rest.parser
            &&& r.status == rest.status
            &&& r.cursor == rest.cursor
            &&& r.trace == seq![Role::Positional] + rest.trace
        }),
{
    assert(p.keep(seq![tokens[cursor]]).args =~= p.args.push(tokens[cursor]));
    let t = tokens[cursor];
    let r = run(p, tokens, cursor, first);
    assert(classify(t) == TokenClass::Literal);
    let s = step(p, tokens, cursor, first);
    assert(s.extra.len() == 0);
    assert(seq![s.role] + s.extra =~= seq![Role::Positional]);
    let rest = run(p.keep(seq![tokens[cursor]]), tokens, cursor + 1, false);
    assert(r.trace =~= seq![Role::Positional] + rest.trace);
}

/// A token that is `-` alone, or a dash followed by a digit, is never taken
/// for a flag, an option, the end-of-options marker or a command: the
/// parser that reads it takes it for a positional argument, unless the
/// token before it asked for it as its value.
pub proof fn law_literal_role(p: ParserView, tokens: Seq<Seq<char>>, cursor: int, first: bool, k: int)
    requires
        p.wf(),
        0 <= cursor <= tokens.len(),
        0 <= k < run(p, tokens, cursor, first).trace.len(),
        is_literal(tokens[cursor + k]),
    ensures
        ({
            let role = run(p, tokens, cursor, first).trace[k];
            role is Positional || role is Value || role is HelpTopic || role is Nested
        }),
{
    lemma_run(p, tokens, cursor, first);
    let r = run(p, tokens, cursor, first);
    assert(fits(r.trace[k], classify(tokens[cursor + k])));
}

/// The positional arguments after a parse are those before it, followed by
/// the tokens that the parser took for positional, in input order.
pub proof fn law_positionals(p: ParserView, tokens: Seq<Seq<char>>, cursor: int, first: bool)
    requires
        p.wf(),
        0 <= cursor <= tokens.len(),
    ensures
        ({
            let r = run(p, tokens, cursor, first);
            r.parser.args == p.args + positionals(tokens, cursor, r.trace)
        }),
{
    lemma_run(p, tokens, cursor, first);
}

/// Whether the token `t` holds nothing but aliases of flags: `--a` with `a`
/// an alias of a flag, or a cluster of which every character is one.
pub open spec fn names_only_flags(flag_map: Map<Seq<char>, usize>, t: Seq<char>) -> bool {
    match classify(t) {
        TokenClass::Long => flag_map.contains_key(t.skip(2)),
        TokenClass::Cluster => forall|j: int|
            1 <= j < t.len() ==> flag_map.contains_key(seq![#[trigger] t[j]]),
        _ => false,
    }
}

/// How often the token `t` names the flag at `index`: once where it is
/// `--a` with `a` an alias of the flag, and once for each character after
/// the dash of a cluster that is an alias of it.
pub open spec fn token_names(flag_map: Map<Seq<char>, usize>, index: int, t: Seq<char>) -> int {
    match classify(t) {
        TokenClass::Long => if leads_to(flag_map, t.skip(2), index) {
            1
        } else {
            0
        },
        TokenClass::Cluster => cluster_hits(flag_map, index, t, t.len() - 1),
        _ => 0,
    }
}

/// How often the tokens from `cursor` on name the flag at `index`.
pub open spec fn occurrences(
    flag_map: Map<Seq<char>, usize>,
    index: int,
    tokens: Seq<Seq<char>>,
    cursor: int,
) -> int
    decreases tokens.len() - cursor,
{
    if 0 <= cursor < tokens.len() {
        token_names(flag_map, index, tokens[cursor]) + occurrences(flag_map, index, tokens, cursor + 1)
    } else {
        0
    }
}

/// A cluster of flags is read to its end and takes no token after it; it
/// changes nothing but counts.
pub proof fn lemma_cluster_of_flags(p: ParserView, t: Seq<char>, j: int, tokens: Seq<Seq<char>>, next: int)
    requires
        1 <= j <= t.len(),
        forall|i: int| j <= i < t.len() ==> p.flag_map.contains_key(seq![#[trigger] t[i]]),
    ensures
        ({
            let s = cluster(p, t, j, tokens, next);
            &&& s.status is Parsed
            &&& s.extra.len() == 0
            &&& s.parser == ParserView { flags: s.parser.flags, ..p }
        }),
    decreases t.len() - j,
{
    if j < t.len() {
        let key = seq![t[j]];
        assert(p.is_flag(key));
        let q = p.bump(p.flag_map[key] as int);
        lemma_cluster_of_flags(q, t, j + 1, tokens, next);
    }
}

/// Tokens that hold nothing but aliases of flags are all read, and each
/// count grows by the number of times the tokens name the flag.
pub proof fn lemma_flags_only(p: ParserView, tokens: Seq<Seq<char>>, cursor: int, first: bool)
    requires
        p.wf(),
        0 <= cursor <= tokens.len(),
        forall|k: int| cursor <= k < tokens.len() ==> names_only_flags(p.flag_map, #[trigger] tokens[k]),
    ensures
        ({
            let r = run(p, tokens, cursor, first);
            &&& r.status is Parsed
            &&& r.cursor == tokens.len()
            &&& r.parser == ParserView { flags: r.parser.flags, ..p }
            &&& r.parser.flags.len() == p.flags.len()
            &&& forall|i: int|
                0 <= i < p.flags.len() ==> #[trigger] r.parser.flags[i] == p.flags[i] + occurrences(
                    p.flag_map,
                    i,
                    tokens,
                    cursor,
                )
        }),
    decreases tokens.len() - cursor,
{
    let r = run(p, tokens, cursor, first);
    if cursor < tokens.len() {
        let t = tokens[cursor];
        assert(names_only_flags(p.flag_map, t));
        let s = step(p, tokens, cursor, first);
        lemma_step(p, tokens, cursor, first);
        if classify(t) == TokenClass::Cluster {
            lemma_cluster_of_flags(p, t, 1, tokens, cursor + 1);
            lemma_cluster(p, t, 1, tokens, cursor + 1);
        } else {
            assert(p.is_flag(t.skip(2)));
            assert(s.extra.len() == 0);
        }
        assert(s.status is Parsed);
        assert(s.parser == ParserView { flags: s.parser.flags, ..p });
        lemma_flags_only(s.parser, tokens, cursor + 1, false);
        let rest = run(s.parser, tokens, cursor + 1, false);
        assert(r.parser == rest.parser);
        assert forall|i: int| 0 <= i < p.flags.len() implies #[trigger] r.parser.flags[i]
            == p.flags[i] + occurrences(p.flag_map, i, tokens, cursor) by {
            assert(rest.parser.flags[i] == s.parser.flags[i] + occurrences(
                p.flag_map,
                i,
                tokens,
                cursor + 1,
            ));
            if classify(t) == TokenClass::Cluster {
                assert(cluster_hits(p.flag_map, i, t, 0) == 0);
                assert(acted_on(s.role) == t.len() - 1);
                assert(s.parser.flags[i] == p.flags[i] + cluster_hits(p.flag_map, i, t, t.len() - 1));
            } else {
                let index = p.flag_map[t.skip(2)] as int;
                assert(leads_to(p.flag_map, t.skip(2), i) <==> i == index);
                assert(s.parser.flags[i] == p.flags[i] + token_names(p.flag_map, i, t));
            }
        }
    }
}

/// On an input of flags alone, the count of a flag after the parse is its
/// count before, plus the number of tokens `--a` with `a` an alias of the
/// flag, plus the number of characters after the dash, over all clusters,
/// that are aliases of it. Every token is read, and nothing but counts
/// changes.
pub proof fn law_flag_occurrences(
    p: ParserView,
    tokens: Seq<Seq<char>>,
    cursor: int,
    first: bool,
    name: Seq<char>,
)
    requires
        p.wf(),
        0 <= cursor <= tokens.len(),
        p.is_flag(name),
        forall|k: int| cursor <= k < tokens.len() ==> names_only_flags(p.flag_map, #[trigger] tokens[k]),
    ensures
        ({
            let r = run(p, tokens, cursor, first);
            &&& r.status is Parsed
            &&& r.cursor == tokens.len()
            &&& r.parser.is_flag(name)
            &&& r.parser.count_of(name) == p.count_of(name) + occurrences(
                p.flag_map,
                p.flag_map[name] as int,
                tokens,
                cursor,
            )
            &&& r.parser.args == p.args
            &&& r.parser.options == p.options
        }),
{
    lemma_flags_only(p, tokens, cursor, first);
    let r = run(p, tokens, cursor, first);
    let index = p.flag_map[name] as int;
    assert(r.parser.flags[index] == p.flags[index] + occurrences(p.flag_map, index, tokens, cursor));
}

/// The tokens from `cursor` on that are positional by their shape: those
/// that do not begin with a dash, `-` alone, and a dash followed by an
/// ASCII digit.
pub open spec fn plain_tokens(tokens: Seq<Seq<char>>, cursor: int) -> Seq<Seq<char>>
    decreases tokens.len() - cursor,
{
    if 0 <= cursor < tokens.len() {
        let t = tokens[cursor];
        let rest = plain_tokens(tokens, cursor + 1);
        if classify(t) == TokenClass::Word || classify(t) == TokenClass::Literal {
            seq![t] + rest
        } else {
            rest
        }
    } else {
        Seq::empty()
    }
}

/// Where no option is registered, a cluster takes no token after it.
pub proof fn lemma_cluster_takes_nothing(
    p: ParserView,
    t: Seq<char>,
    j: int,
    tokens: Seq<Seq<char>>,
    next: int,
)
    requires
        1 <= j <= t.len(),
        forall|k: Seq<char>| !p.option_map.contains_key(k),
    ensures
        cluster(p, t, j, tokens, next).extra.len() == 0,
    decreases t.len() - j,
{
    if j < t.len() {
        let key = seq![t[j]];
        if p.is_flag(key) {
            lemma_cluster_takes_nothing(p.bump(p.flag_map[key] as int), t, j + 1, tokens, next);
        }
    }
}

/// Where no option is registered, where the first token can be neither a
/// sub-command nor the `help` command, and where no token is `--`, a parse
/// that reads every token ends with the positional arguments it began
/// with, followed by the tokens that are positional by their shape, in
/// input order.
pub proof fn law_positionals_by_shape(p: ParserView, tokens: Seq<Seq<char>>, cursor: int, first: bool)
    requires
        p.wf(),
        0 <= cursor <= tokens.len(),
        forall|k: Seq<char>| !p.option_map.contains_key(k),
        first ==> !p.cmd_help && forall|k: Seq<char>| !p.command_map.contains_key(k),
        forall|k: int|
            cursor <= k < tokens.len() ==> classify(#[trigger] tokens[k]) != TokenClass::EndOfOptions,
        run(p, tokens, cursor, first).status is Parsed,
    ensures
        run(p, tokens, cursor, first).parser.args == p.args + plain_tokens(tokens, cursor),
    decreases tokens.len() - cursor,
{
    let r = run(p, tokens, cursor, first);
    let none = Seq::<Seq<char>>::empty();
    if cursor >= tokens.len() {
        assert(p.args + none =~= p.args);
    } else {
        let t = tokens[cursor];
        assert(classify(t) != TokenClass::EndOfOptions);
        assert(!enters_command(p, t, first));
        let s = step(p, tokens, cursor, first);
        lemma_step(p, tokens, cursor, first);
        if classify(t) == TokenClass::Cluster {
            lemma_cluster_takes_nothing(p, t, 1, tokens, cursor + 1);
            lemma_cluster(p, t, 1, tokens, cursor + 1);
        }
        assert(s.status is Parsed);
        assert(s.extra.len() == 0);
        let head = if classify(t) == TokenClass::Word || classify(t) == TokenClass::Literal {
            seq![t]
        } else {
            none
        };
        assert(s.parser.args =~= p.args + head);
        law_positionals_by_shape(s.parser, tokens, cursor + 1, false);
        let rest = run(s.parser, tokens, cursor + 1, false);
        assert(r.parser.args =~= p.args + (head + plain_tokens(tokens, cursor + 1)));
    }
}

/// A cluster that is read to its end does the same whatever tokens follow
/// those that it was read with.
pub proof fn lemma_cluster_with_more(
    p: ParserView,
    t: Seq<char>,
    j: int,
    a: Seq<Seq<char>>,
    more: Seq<Seq<char>>,
    next: int,
)
    requires
        1 <= j <= t.len(),
        0 <= next,
        cluster(p, t, j, a, next).status is Parsed,
    ensures
        cluster(p, t, j, a + more, next) == cluster(p, t, j, a, next),
    decreases t.len() - j,
{
    if j < t.len() {
        let key = seq![t[j]];
        if p.is_flag(key) {
            lemma_cluster_with_more(p.bump(p.flag_map[key] as int), t, j + 1, a, more, next);
        } else if p.is_option(key) {
            assert(next < a.len());
            assert((a + more)[next] == a[next]);
            let q = p.supply(p.option_map[key] as int, a[next]);
            lemma_cluster_with_more(q, t, j + 1, a, more, next + 1);
        }
    }
}

/// Where the tokens `a` hold no `--`, enter no sub-command and are all
/// read, parsing `a`, then `--`, then the tokens `b` does what parsing `a`
/// does, and appends `b` to the positional arguments as it stands: no
/// token of `b` is read as anything else, and the `--` itself is kept
/// nowhere.
pub proof fn law_sentinel_split(
    p: ParserView,
    a: Seq<Seq<char>>,
    b: Seq<Seq<char>>,
    cursor: int,
    first: bool,
)
    requires
        p.wf(),
        0 <= cursor <= a.len(),
        first ==> forall|k: Seq<char>| !p.command_map.contains_key(k),
        forall|k: int| cursor <= k < a.len() ==> classify(#[trigger] a[k]) != TokenClass::EndOfOptions,
        run(p, a, cursor, first).status is Parsed,
    ensures
        ({
            let all = a + seq![seq!['-', '-']] + b;
            let q = run(p, a, cursor, first);
            let r = run(p, all, cursor, first);
            &&& r.status is Parsed
            &&& r.cursor == all.len()
            &&& r.parser == q.parser.keep(b)
            &&& r.parser.args == q.parser.args + b
            &&& r.parser.flags == q.parser.flags
            &&& r.parser.options == q.parser.options
        }),
    decreases a.len() - cursor,
{
    let more = seq![seq!['-', '-']] + b;
    let all = a + more;
    assert(all =~= a + seq![seq!['-', '-']] + b);
    let q = run(p, a, cursor, first);
    let r = run(p, all, cursor, first);
    if cursor >= a.len() {
        assert(all[cursor] == seq!['-', '-']);
        assert(classify(all[cursor]) == TokenClass::EndOfOptions);
        assert(all.skip(cursor + 1) =~= b);
    } else {
        let t = a[cursor];
        assert(all[cursor] == t);
        assert(classify(t) != TokenClass::EndOfOptions);
        assert(!enters_command(p, t, first));
        let s = step(p, a, cursor, first);
        lemma_step(p, a, cursor, first);
        assert(s.status is Parsed);
        assert(step(p, all, cursor, first) == s) by {
            match classify(t) {
                TokenClass::Long => {
                    if !p.is_flag(t.skip(2)) && p.is_option(t.skip(2)) {
                        assert(cursor + 1 < a.len());
                        assert(all[cursor + 1] == a[cursor + 1]);
                    }
                },
                TokenClass::Cluster => {
                    lemma_cluster_with_more(p, t, 1, a, more, cursor + 1);
                },
                _ => {},
            }
        }
        let next = cursor + 1 + s.extra.len();
        law_sentinel_split(s.parser, a, b, next, false);
    }
}

/// Whether the token `t` brings an option its value: `name=value` with the
/// name, without its dashes, an alias of an option, and a value that is not
/// empty.
pub open spec fn brings_value(option_map: Map<Seq<char>, usize>, t: Seq<char>) -> bool {
    &&& classify(t) == TokenClass::Inline
    &&& option_map.contains_key(strip_dashes(inline_name(t)))
    &&& inline_value(t).len() > 0
}

/// The name that the token `t` holds where it is `--a` or `-c`.
pub open spec fn lone_name(t: Seq<char>) -> Seq<char> {
    if classify(t) == TokenClass::Long {
        t.skip(2)
    } else {
        seq![t[1]]
    }
}

/// Whether the token `t` asks for the next token as the value of an
/// option: `--a` or `-c` with `a` or `c` an alias of an option and of no
/// flag.
pub open spec fn asks_value(
    flag_map: Map<Seq<char>, usize>,
    option_map: Map<Seq<char>, usize>,
    t: Seq<char>,
) -> bool {
    &&& classify(t) == TokenClass::Long || (classify(t) == TokenClass::Cluster && t.len() == 2)
    &&& !flag_map.contains_key(lone_name(t))
    &&& option_map.contains_key(lone_name(t))
}

/// Whether the tokens from `cursor` on are options with their values and
/// nothing else: each is a `name=value`, or a `--a` or `-c` followed by
/// the token that is its value.
pub open spec fn options_only(
    flag_map: Map<Seq<char>, usize>,
    option_map: Map<Seq<char>, usize>,
    tokens: Seq<Seq<char>>,
    cursor: int,
) -> bool
    decreases tokens.len() - cursor,
{
    if !(0 <= cursor < tokens.len()) {
        true
    } else if brings_value(option_map, tokens[cursor]) {
        options_only(flag_map, option_map, tokens, cursor + 1)
    } else if asks_value(flag_map, option_map, tokens[cursor]) && cursor + 1 < tokens.len() {
        options_only(flag_map, option_map, tokens, cursor + 2)
    } else {
        false
    }
}

/// The values that such tokens give to the option at `index`, in input
/// order: the text after the first `=` of each `name=value` whose name is
/// an alias of it, and the token after each `--a` or `-c` that is.
pub open spec fn values_given(
    flag_map: Map<Seq<char>, usize>,
    option_map: Map<Seq<char>, usize>,
    index: int,
    tokens: Seq<Seq<char>>,
    cursor: int,
) -> Seq<Seq<char>>
    decreases tokens.len() - cursor,
{
    if !(0 <= cursor < tokens.len()) {
        Seq::empty()
    } else if brings_value(option_map, tokens[cursor]) {
        let t = tokens[cursor];
        let rest = values_given(flag_map, option_map, index, tokens, cursor + 1);
        if leads_to(option_map, strip_dashes(inline_name(t)), index) {
            seq![inline_value(t)] + rest
        } else {
            rest
        }
    } else if asks_value(flag_map, option_map, tokens[cursor]) && cursor + 1 < tokens.len() {
        let rest = values_given(flag_map, option_map, index, tokens, cursor + 2);
        if leads_to(option_map, lone_name(tokens[cursor]), index) {
            seq![tokens[cursor + 1]] + rest
        } else {
            rest
        }
    } else {
        Seq::empty()
    }
}

/// Options with their values are all read, and each option gets the values
/// that the tokens give it, in input order.
pub proof fn lemma_options_only(p: ParserView, tokens: Seq<Seq<char>>, cursor: int, first: bool)
    requires
        p.wf(),
        0 <= cursor <= tokens.len(),
        options_only(p.flag_map, p.option_map, tokens, cursor),
    ensures
        ({
            let r = run(p, tokens, cursor, first);
            &&& r.status is Parsed
            &&& r.cursor == tokens.len()
            &&& r.parser == ParserView { options: r.parser.options, ..p }
            &&& r.parser.options.len() == p.options.len()
            &&& forall|i: int|
                0 <= i < p.options.len() ==> (#[trigger] r.parser.options[i]).default
                    == p.options[i].default
            &&& forall|i: int|
                0 <= i < p.options.len() ==> (#[trigger] r.parser.options[i]).values
                    == p.options[i].values + values_given(
                    p.flag_map,
                    p.option_map,
                    i,
                    tokens,
                    cursor,
                )
        }),
    decreases tokens.len() - cursor,
{
    let r = run(p, tokens, cursor, first);
    let none = Seq::<Seq<char>>::empty();
    if cursor >= tokens.len() {
        assert forall|i: int| 0 <= i < p.options.len() implies (#[trigger] r.parser.options[i]).values
            == p.options[i].values + values_given(p.flag_map, p.option_map, i, tokens, cursor) by {
            assert(p.options[i].values + none =~= p.options[i].values);
        }
    } else {
        let t = tokens[cursor];
        let s = step(p, tokens, cursor, first);
        let inline = brings_value(p.option_map, t);
        let key = if inline {
            strip_dashes(inline_name(t))
        } else {
            lone_name(t)
        };
        let value = if inline {
            inline_value(t)
        } else {
            tokens[cursor + 1]
        };
        let taken: int = if inline {
            0
        } else {
            1
        };
        let index = p.option_map[key] as int;
        assert(p.is_option(key));
        if !inline && classify(t) == TokenClass::Cluster {
            let after = cluster(p.supply(index, value), t, 2, tokens, cursor + 2);
            assert(after.status is Parsed && after.extra.len() == 0);
            assert(s.extra =~= seq![Role::Value(index)]);
        }
        assert(s.status is Parsed);
        assert(s.extra.len() == taken);
        assert(s.parser == p.supply(index, value));
        lemma_supply(p, index, value);
        lemma_options_only(s.parser, tokens, cursor + 1 + taken, false);
        let rest = run(s.parser, tokens, cursor + 1 + taken, false);
        assert(r.parser == rest.parser);
        assert forall|i: int| 0 <= i < p.options.len() implies (#[trigger] r.parser.options[i]).values
            == p.options[i].values + values_given(p.flag_map, p.option_map, i, tokens, cursor) by {
            let tail = values_given(p.flag_map, p.option_map, i, tokens, cursor + 1 + taken);
            assert(rest.parser.options[i].values == s.parser.options[i].values + tail);
            if i == index {
                assert(p.options[i].values.push(value) + tail =~= p.options[i].values + (seq![value]
                    + tail));
            }
        }
    }
}

/// On an input of options with their values, the values of an option after
/// the parse are its values before, followed by the values that the tokens
/// give it, in input order: the text after the first `=` of `--a=v` or
/// `-c=v`, and the token after `--a` or `-c`, for each alias of the option.
/// Every token is read, and nothing but values changes.
pub proof fn law_option_supplies(
    p: ParserView,
    tokens: Seq<Seq<char>>,
    cursor: int,
    first: bool,
    name: Seq<char>,
)
    requires
        p.wf(),
        0 <= cursor <= tokens.len(),
        p.is_option(name),
        options_only(p.flag_map, p.option_map, tokens, cursor),
    ensures
        ({
            let r = run(p, tokens, cursor, first);
            &&& r.status is Parsed
            &&& r.cursor == tokens.len()
            &&& r.parser.is_option(name)
            &&& r.parser.values_of(name) == p.values_of(name) + values_given(
                p.flag_map,
                p.option_map,
                p.option_map[name] as int,
                tokens,
                cursor,
            )
            &&& r.parser.args == p.args
            &&& r.parser.flags == p.flags
        }),
{
    lemma_options_only(p, tokens, cursor, first);
    let r = run(p, tokens, cursor, first);
    let index = p.option_map[name] as int;
    assert(r.parser.options[index].values == p.options[index].values + values_given(
        p.flag_map,
        p.option_map,
        index,
        tokens,
        cursor,
    ));
}

} // verus!
