use vstd::prelude::*;
use crate::SyntaxError;

verus! {

// ---------------------------------------------------------------------------
// Infix-to-postfix conversion (shunting yard). The conversion is specified by
// the spec functions below, one per elementary move of the algorithm; the
// executable pass refines them token by token.
// ---------------------------------------------------------------------------

/// Operator priority: unary postfix operators bind tightest, then implicit
/// concatenation, then union. `(` acts as a barrier of priority zero.
pub open spec fn prio(c: char) -> nat {
    if c == '*' || c == '+' || c == '?' {
        3
    } else if c == '.' {
        2
    } else if c == '|' {
        1
    } else {
        0
    }
}

/// State of the shunting-yard pass: emitted output, operator stack, and
/// whether the next operand should be preceded by an implicit concatenation.
pub ghost struct ShuntState {
    pub out: Seq<char>,
    pub stack: Seq<char>,
    pub concat: bool,
}

/// Pop operators of strictly greater priority than `c` to the output.
pub open spec fn spec_pop_while(out: Seq<char>, stack: Seq<char>, c: char) -> (Seq<char>, Seq<char>)
    decreases stack.len(),
{
    if stack.len() > 0 && prio(stack.last()) > prio(c) {
        spec_pop_while(out.push(stack.last()), stack.drop_last(), c)
    } else {
        (out, stack)
    }
}

/// Push an operator, first popping the ones of strictly greater priority;
/// `(` is pushed without popping anything.
pub open spec fn spec_op_get_in(out: Seq<char>, stack: Seq<char>, c: char) -> (Seq<char>, Seq<char>) {
    if c == '(' {
        (out, stack.push(c))
    } else {
        let (o, s) = spec_pop_while(out, stack, c);
        (o, s.push(c))
    }
}

/// On `)`: pop operators to the output until the matching `(`, which is
/// discarded. `None` when no `(` is on the stack.
pub open spec fn spec_close_paren(out: Seq<char>, stack: Seq<char>) -> Option<(Seq<char>, Seq<char>)>
    decreases stack.len(),
{
    if stack.len() == 0 {
        None
    } else if stack.last() == '(' {
        Some((out, stack.drop_last()))
    } else {
        spec_close_paren(out.push(stack.last()), stack.drop_last())
    }
}

/// One input character of the shunting-yard pass.
pub open spec fn spec_shunt_step(st: ShuntState, c: char) -> Option<ShuntState> {
    if c == '(' {
        let (o1, s1) = if st.concat {
            spec_op_get_in(st.out, st.stack, '.')
        } else {
            (st.out, st.stack)
        };
        let (o2, s2) = spec_op_get_in(o1, s1, '(');
        Some(ShuntState { out: o2, stack: s2, concat: false })
    } else if c == '*' || c == '+' || c == '?' {
        let (o, s) = spec_op_get_in(st.out, st.stack, c);
        Some(ShuntState { out: o, stack: s, concat: st.concat })
    } else if c == '|' {
        let (o, s) = spec_op_get_in(st.out, st.stack, c);
        Some(ShuntState { out: o, stack: s, concat: false })
    } else if c == ')' {
        match spec_close_paren(st.out, st.stack) {
            None => None,
            Some((o, s)) => Some(ShuntState { out: o, stack: s, concat: true }),
        }
    } else {
        let (o1, s1) = if st.concat {
            spec_op_get_in(st.out, st.stack, '.')
        } else {
            (st.out, st.stack)
        };
        Some(ShuntState { out: o1.push(c), stack: s1, concat: true })
    }
}

/// The shunting-yard pass over the remaining input.
pub open spec fn spec_shunt_from(st: ShuntState, text: Seq<char>) -> Option<ShuntState>
    decreases text.len(),
{
    if text.len() == 0 {
        Some(st)
    } else {
        match spec_shunt_step(st, text[0]) {
            None => None,
            Some(st2) => spec_shunt_from(st2, text.drop_first()),
        }
    }
}

/// Drain the operator stack at end of input. A leftover `(` means the
/// parentheses were unbalanced.
pub open spec fn spec_drain(out: Seq<char>, stack: Seq<char>) -> Option<Seq<char>>
    decreases stack.len(),
{
    if stack.len() == 0 {
        Some(out)
    } else if stack.last() == '(' {
        None
    } else {
        spec_drain(out.push(stack.last()), stack.drop_last())
    }
}

/// The postfix form of a pattern; `None` exactly when parentheses are
/// unbalanced.
pub open spec fn spec_postfix(text: Seq<char>) -> Option<Seq<char>> {
    match spec_shunt_from(ShuntState { out: Seq::empty(), stack: Seq::empty(), concat: false }, text) {
        None => None,
        Some(st) => spec_drain(st.out, st.stack),
    }
}

/// Executable operator priority.
pub fn get_priority(op: char) -> (p: usize)
    ensures
        p == prio(op),
{
    match op {
        '*' => 3,
        '+' => 3,
        '?' => 3,
        '.' => 2,
        '|' => 1,
        _ => 0,
    }
}

/// Push `ch` onto the operator stack, first moving operators of strictly
/// greater priority to the output.
fn op_get_in(ch: char, op_stack: &mut Vec<char>, suffix_out: &mut Vec<char>)
    ensures
        (final(suffix_out)@, final(op_stack)@) == spec_op_get_in(
            old(suffix_out)@,
            old(op_stack)@,
            ch,
        ),
{
    if ch != '(' {
        loop
            invariant
                spec_pop_while(suffix_out@, op_stack@, ch) == spec_pop_while(
                    old(suffix_out)@,
                    old(op_stack)@,
                    ch,
                ),
            ensures
                (suffix_out@, op_stack@) == spec_pop_while(old(suffix_out)@, old(op_stack)@, ch),
            decreases op_stack@.len(),
        {
            if op_stack.len() == 0 {
                break;
            }
            let top = op_stack[op_stack.len() - 1];
            if get_priority(top) <= get_priority(ch) {
                break;
            }
            let popped = op_stack.pop().unwrap();
            suffix_out.push(popped);
        }
    }
    op_stack.push(ch);
}

/// Convert an infix pattern into postfix token order, inserting implicit
/// concatenation operators. Fails exactly on unbalanced parentheses.
pub fn to_suffix(regex_exp: &str) -> (r: Result<Vec<char>, SyntaxError>)
    ensures
        match r {
            Ok(v) => spec_postfix(regex_exp@) == Some(v@),
            Err(e) => spec_postfix(regex_exp@) is None && e == SyntaxError::UnbalancedParenthesis,
        },
{
    let ghost text = regex_exp@;
    let ghost init = ShuntState { out: Seq::empty(), stack: Seq::empty(), concat: false };
    let n = regex_exp.unicode_len();
    let mut suffix_out: Vec<char> = Vec::new();
    let mut op_stack: Vec<char> = Vec::new();
    let mut concat_flag = false;
    let mut i: usize = 0;
    proof {
        assert(text.skip(0) =~= text);
    }
    while i < n
        invariant
            i <= n,
            n == text.len(),
            text == regex_exp@,
            init == (ShuntState { out: Seq::<char>::empty(), stack: Seq::<char>::empty(), concat: false }),
            spec_shunt_from(
                ShuntState { out: suffix_out@, stack: op_stack@, concat: concat_flag },
                text.skip(i as int),
            ) == spec_shunt_from(init, text),
        decreases n - i,
    {
        let ghost st_before = ShuntState { out: suffix_out@, stack: op_stack@, concat: concat_flag };
        let ch = regex_exp.get_char(i);
        proof {
            assert(text.skip(i as int)[0] == ch);
            assert(text.skip(i as int).drop_first() =~= text.skip(i as int + 1));
        }
        if ch == '(' {
            if concat_flag {
                op_get_in('.', &mut op_stack, &mut suffix_out);
            }
            op_get_in(ch, &mut op_stack, &mut suffix_out);
            concat_flag = false;
        } else if ch == '*' || ch == '+' || ch == '?' {
            op_get_in(ch, &mut op_stack, &mut suffix_out);
        } else if ch == '|' {
            op_get_in(ch, &mut op_stack, &mut suffix_out);
            concat_flag = false;
        } else if ch == ')' {
            // pop to the output until the matching '(' is found and discarded
            loop
                invariant
                    spec_close_paren(suffix_out@, op_stack@) == spec_close_paren(
                        st_before.out,
                        st_before.stack,
                    ),
                ensures
                    spec_close_paren(st_before.out, st_before.stack) == (if op_stack@.len() == 0 {
                        None::<(Seq<char>, Seq<char>)>
                    } else {
                        Some((suffix_out@, op_stack@.drop_last()))
                    }),
                    op_stack@.len() > 0 ==> op_stack@.last() == '(',
                decreases op_stack@.len(),
            {
                if op_stack.len() == 0 {
                    break;
                }
                let top = op_stack[op_stack.len() - 1];
                if top == '(' {
                    break;
                }
                let popped = op_stack.pop().unwrap();
                suffix_out.push(popped);
            }
            if op_stack.len() == 0 {
                // no matching '(' anywhere below: unbalanced
                proof {
                    assert(spec_shunt_step(st_before, ch) is None);
                    assert(spec_shunt_from(st_before, text.skip(i as int)) is None);
                    assert(spec_postfix(regex_exp@) is None);
                }
                return Err(SyntaxError::UnbalancedParenthesis);
            }
            let _ = op_stack.pop();
            concat_flag = true;
        } else {
            // an ordinary character: an operand
            if concat_flag {
                op_get_in('.', &mut op_stack, &mut suffix_out);
            }
            concat_flag = true;
            suffix_out.push(ch);
        }
        i = i + 1;
    }
    proof {
        assert(text.skip(n as int) =~= Seq::<char>::empty());
    }
    // drain the remaining operators; a leftover '(' is unbalanced
    let ghost st_end = ShuntState { out: suffix_out@, stack: op_stack@, concat: concat_flag };
    loop
        invariant
            spec_drain(suffix_out@, op_stack@) == spec_drain(st_end.out, st_end.stack),
        ensures
            spec_drain(st_end.out, st_end.stack) == (if op_stack@.len() == 0 {
                Some(suffix_out@)
            } else {
                None::<Seq<char>>
            }),
        decreases op_stack@.len(),
    {
        if op_stack.len() == 0 {
            break;
        }
        let top = op_stack[op_stack.len() - 1];
        if top == '(' {
            break;
        }
        let popped = op_stack.pop().unwrap();
        suffix_out.push(popped);
    }
    if op_stack.len() > 0 {
        return Err(SyntaxError::UnbalancedParenthesis);
    }
    Ok(suffix_out)
}

} // verus!
