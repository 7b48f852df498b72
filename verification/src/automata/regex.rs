//! The text of regular expressions: grouping, and the expression that takes
//! the place of a path through a state that is removed.
use vstd::prelude::*;
use vstd::string::*;

use crate::automata::AutomataImpl;

verus! {

/// An expression put in parentheses.
pub open spec fn wrapped(regex: Seq<char>) -> Seq<char> {
    seq!['('] + regex + seq![')']
}

/// How many parentheses are open after the first `k` characters.
pub open spec fn depth_after(regex: Seq<char>, k: int) -> int
    decreases k,
{
    if k <= 0 {
        0
    } else {
        depth_after(regex, k - 1) + if regex[k - 1] == '(' {
            1int
        } else if regex[k - 1] == ')' {
            -1int
        } else {
            0int
        }
    }
}

/// The expression is one group: it opens with a parenthesis that only its
/// last character closes.
pub open spec fn enclosed(regex: Seq<char>) -> bool {
    &&& regex.len() >= 2
    &&& regex[0] == '('
    &&& regex.last() == ')'
    &&& forall|k: int| 1 <= k < regex.len() ==> depth_after(regex, k) > 0
}

/// The expression as the operand of a postfix operator: itself where it is
/// one character or one group, else put in parentheses.
pub open spec fn operand(regex: Seq<char>) -> Seq<char> {
    if regex.len() == 1 || enclosed(regex) {
        regex
    } else {
        wrapped(regex)
    }
}

/// The case in which a path through a removed state collapses to a star:
/// the direct edge is silent, the edge into the state equals its loop, and
/// the edge out of it is silent.
pub open spec fn unfold_applies(
    former: Option<Seq<char>>,
    incoming: Seq<char>,
    cyclic: Option<Seq<char>>,
    outcoming: Seq<char>,
) -> bool {
    former == Some(Seq::<char>::empty()) && cyclic == Some(incoming) && outcoming.len() == 0
}

/// The loop of the removed state, starred; nothing where it has none.
pub open spec fn starred(cyclic: Option<Seq<char>>) -> Seq<char> {
    match cyclic {
        Some(regex) => operand(regex) + seq!['*'],
        None => Seq::<char>::empty(),
    }
}

/// The label of the edge from `i` to `j` once a state `k` between them is
/// removed, from the labels `former` of `i` to `j`, `incoming` of `i` to `k`,
/// `cyclic` of `k` to itself and `outcoming` of `k` to `j`: the path through
/// `k`, as an alternative to a former label that is not silent, and optional
/// where the former label is silent.
pub open spec fn composed(
    former: Option<Seq<char>>,
    incoming: Seq<char>,
    cyclic: Option<Seq<char>>,
    outcoming: Seq<char>,
) -> Seq<char> {
    if unfold_applies(former, incoming, cyclic, outcoming) {
        operand(incoming) + seq!['*']
    } else {
        let path = incoming + starred(cyclic) + outcoming;
        match former {
            Some(direct) => if direct.len() == 0 {
                operand(path) + seq!['?']
            } else {
                wrapped(direct + seq!['|'] + path)
            },
            None => path,
        }
    }
}

/// Whether the expression is one group.
pub fn is_enclosed(regex: &str) -> (whole: bool)
    ensures
        whole == enclosed(regex@),
{
    let len: usize = regex.unicode_len();
    if len < 2 {
        return false;
    }
    if regex.get_char(0) != '(' || regex.get_char(len - 1) != ')' {
        return false;
    }
    let mut depth: usize = 1;
    let mut k: usize = 1;
    assert(depth_after(regex@, 1) == 1) by {
        assert(depth_after(regex@, 0) == 0);
    }
    while k < len - 1
        invariant
            len == regex@.len(),
            len >= 2,
            1 <= k <= len - 1,
            depth == depth_after(regex@, k as int),
            depth <= k,
            forall|a: int| 1 <= a <= k ==> depth_after(regex@, a) > 0,
        decreases len - k,
    {
        let c: char = regex.get_char(k);
        if c == '(' {
            depth += 1;
        } else if c == ')' {
            depth -= 1;
            if depth == 0 {
                assert(depth_after(regex@, k + 1) == 0);
                return false;
            }
        }
        k += 1;
    }
    true
}

impl AutomataImpl {
    /// Puts an expression in parentheses.
    pub fn wrap(regex: &String) -> (group: String)
        ensures
            group@ == wrapped(regex@),
    {
        let mut group = String::from_str("(");
        group.append(regex.as_str());
        group.append(")");
        proof {
            reveal_strlit("(");
            reveal_strlit(")");
            assert("("@ =~= seq!['(']);
            assert(")"@ =~= seq![')']);
        }
        group
    }

    /// Puts an expression in parentheses unless it is one character or one
    /// group already.
    pub fn wrap_if_needed(regex: &String) -> (group: String)
        ensures
            group@ == operand(regex@),
    {
        if regex.as_str().unicode_len() == 1 || is_enclosed(regex.as_str()) {
            return regex.clone();
        }
        Self::wrap(regex)
    }

    /// Whether a path through a removed state collapses to a star.
    pub fn is_unfold_axiom_applicable(
        former_regex_opt: &Option<String>,
        incoming_regex: &String,
        cyclic_regex_opt: &Option<String>,
        outcoming_regex: &String,
    ) -> (applicable: bool)
        ensures
            applicable == unfold_applies(
                crate::automata::label_view(*former_regex_opt),
                incoming_regex@,
                crate::automata::label_view(*cyclic_regex_opt),
                outcoming_regex@,
            ),
    {
        let former_silent: bool = match former_regex_opt {
            Some(former) => {
                let silent: bool = former.as_str().unicode_len() == 0;
                assert(silent ==> former@ =~= Seq::<char>::empty());
                silent
            },
            None => false,
        };
        let loop_equal: bool = match cyclic_regex_opt {
            Some(cyclic) => *cyclic == *incoming_regex,
            None => false,
        };
        former_silent && loop_equal && outcoming_regex.as_str().unicode_len() == 0
    }

    /// The label that takes the place of a path through a removed state.
    pub fn compose_regex(
        former_regex_opt: &Option<String>,
        incoming_regex: &String,
        cyclic_regex_opt: &Option<String>,
        outcoming_regex: &String,
    ) -> (regex: String)
        ensures
            regex@ == composed(
                crate::automata::label_view(*former_regex_opt),
                incoming_regex@,
                crate::automata::label_view(*cyclic_regex_opt),
                outcoming_regex@,
            ),
    {
        proof {
            reveal_strlit("*");
            reveal_strlit("|");
            reveal_strlit("?");
            assert("*"@ =~= seq!['*']);
            assert("|"@ =~= seq!['|']);
            assert("?"@ =~= seq!['?']);
        }
        if Self::is_unfold_axiom_applicable(former_regex_opt, incoming_regex, cyclic_regex_opt, outcoming_regex) {
            let mut regex = Self::wrap_if_needed(incoming_regex);
            regex.append("*");
            return regex;
        }
        let mut result = String::new();
        let mut can_be_epsilon: bool = false;
        let mut must_be_wrapped: bool = false;
        match former_regex_opt {
            Some(former_regex) => {
                if former_regex.as_str().unicode_len() == 0 {
                    can_be_epsilon = true;
                } else {
                    must_be_wrapped = true;
                    result.append(former_regex.as_str());
                    result.append("|");
                }
            },
            None => {},
        }
        let ghost head = result@;
        result.append(incoming_regex.as_str());
        match cyclic_regex_opt {
            Some(cyclic_regex) => {
                let group = Self::wrap_if_needed(cyclic_regex);
                result.append(group.as_str());
                result.append("*");
            },
            None => {},
        }
        if outcoming_regex.as_str().unicode_len() != 0 {
            result.append(outcoming_regex.as_str());
        }
        let ghost path = incoming_regex@ + starred(crate::automata::label_view(*cyclic_regex_opt)) + outcoming_regex@;
        assert(result@ =~= head + path);
        if must_be_wrapped {
            assert(head =~= former_regex_opt->0@ + seq!['|']);
            assert(result@ =~= former_regex_opt->0@ + seq!['|'] + path);
            result = Self::wrap(&result);
        }
        if can_be_epsilon {
            assert(head =~= Seq::<char>::empty());
            assert(result@ =~= path);
            let mut optional = Self::wrap_if_needed(&result);
            optional.append("?");
            result = optional;
        }
        if !must_be_wrapped && !can_be_epsilon {
            assert(head =~= Seq::<char>::empty());
            assert(result@ =~= path);
        }
        result
    }
}

} // verus!
