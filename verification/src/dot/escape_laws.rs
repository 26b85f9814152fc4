//! Quoted text is read back as it was.

use super::emitter::{
    attr_list_text, dot_text, escaped, escaped_char, stmt_text, AttrModel, DotStyle, StmtModel,
};
use vstd::prelude::*;

verus! {

/// What text inside quotes stands for: a backslash and the character after it
/// stand for that character, or for a line break if it is an `n`.
pub open spec fn unescaped(t: Seq<char>) -> Seq<char>
    decreases t.len(),
{
    if t.len() == 0 {
        Seq::empty()
    } else if t[0] == '\\' && t.len() >= 2 {
        seq![
            if t[1] == 'n' {
                '\n'
            } else {
                t[1]
            },
        ] + unescaped(t.skip(2))
    } else {
        seq![t[0]] + unescaped(t.skip(1))
    }
}

proof fn lemma_escaped_front(s: Seq<char>)
    requires
        s.len() > 0,
    ensures
        escaped(s) == escaped_char(s[0]) + escaped(s.skip(1)),
    decreases s.len(),
{
    if s.len() == 1 {
        assert(s.drop_last() =~= Seq::empty());
        assert(s.skip(1) =~= Seq::empty());
        assert(escaped(s) =~= escaped_char(s[0]) + escaped(s.skip(1)));
    } else {
        lemma_escaped_front(s.drop_last());
        assert(s.drop_last().skip(1) =~= s.skip(1).drop_last());
        assert(escaped(s) =~= escaped_char(s[0]) + escaped(s.skip(1)));
    }
}

proof fn lemma_escape_chars()
    ensures
        "\\\""@ =~= seq!['\\', '"'],
        "\\\\"@ =~= seq!['\\', '\\'],
        "\\n"@ =~= seq!['\\', 'n'],
{
    reveal_strlit("\\\"");
    reveal_strlit("\\\\");
    reveal_strlit("\\n");
}

/// Text inside quotes reads back as the text.
pub proof fn law_escaped_text_reads_back(s: Seq<char>)
    ensures
        unescaped(escaped(s)) == s,
    decreases s.len(),
{
    lemma_escape_chars();
    if s.len() > 0 {
        lemma_escaped_front(s);
        law_escaped_text_reads_back(s.skip(1));
        let t = escaped(s);
        let rest = escaped(s.skip(1));
        if s[0] == '"' || s[0] == '\\' || s[0] == '\n' {
            assert(t.skip(2) =~= rest);
        } else {
            assert(t.skip(1) =~= rest);
        }
        assert(unescaped(t) =~= s);
    }
}

/// Text inside quotes holds no line break, and no quote without a backslash
/// before it, so that it does not end early.
pub proof fn law_escaped_text_stays_inside(s: Seq<char>, i: int)
    requires
        0 <= i < escaped(s).len(),
    ensures
        escaped(s)[i] != '\n',
        escaped(s)[i] == '"' ==> i > 0 && escaped(s)[i - 1] == '\\',
    decreases s.len(),
{
    lemma_escape_chars();
    if s.len() > 0 {
        let front = escaped(s.drop_last());
        if i < front.len() {
            law_escaped_text_stays_inside(s.drop_last(), i);
        } else {
            assert(escaped(s)[i] == escaped_char(s.last())[i - front.len()]);
            if i > front.len() {
                assert(escaped(s)[i - 1] == escaped_char(s.last())[i - 1 - front.len()]);
            }
        }
    }
}

/// A box and an edge without a look of their own.
pub proof fn law_statements(id: Seq<char>, from: Seq<char>, to: Seq<char>)
    ensures
        stmt_text(StmtModel::Node { id, attrs: Seq::empty() }) == "  \""@ + escaped(id) + "\""@
            + ";\n"@,
        stmt_text(StmtModel::Edge { from, to, attrs: Seq::empty() }) == "  \""@ + escaped(from)
            + "\" -> \""@ + escaped(to) + "\""@ + ";\n"@,
{
    reveal_strlit("");
    let a = "  \""@ + escaped(id) + "\""@;
    let b = "  \""@ + escaped(from) + "\" -> \""@ + escaped(to) + "\""@;
    assert(a + ""@ =~= a);
    assert(b + ""@ =~= b);
}

/// A label is quoted and escaped; any other part of a look is written as it is.
pub proof fn law_looks_are_listed_in_order(key: Seq<char>, value: Seq<char>, rest: AttrModel)
    requires
        key != "label"@,
    ensures
        attr_list_text(seq![("label"@, value)]) == " ["@ + ("label=\""@ + escaped(value) + "\""@)
            + "]"@,
        attr_list_text(seq![(key, value)]) == " ["@ + (key + "="@ + value) + "]"@,
        attr_list_text(seq![("label"@, value), (key, rest.1)]) == " ["@ + ("label=\""@ + escaped(
            value,
        ) + "\""@ + ", "@ + (key + "="@ + rest.1)) + "]"@,
{
    reveal_strlit("");
    reveal_with_fuel(super::emitter::more_attrs_text, 3);
    let label = "label=\""@ + escaped(value) + "\""@;
    let plain = key + "="@ + value;
    let more = key + "="@ + rest.1;
    assert(Seq::<char>::empty() + ""@ + label =~= label);
    assert(Seq::<char>::empty() + ""@ + plain =~= plain);
    assert(label + ", "@ + more =~= "label=\""@ + escaped(value) + "\""@ + ", "@ + more);
}

/// A drawing is a directed graph: its name, its style and its statements in
/// order between braces.
pub proof fn law_drawing_text(name: Seq<char>, stmts: Seq<StmtModel>, s: StmtModel, style: DotStyle)
    ensures
        dot_text(name, DotStyle::Plain, Seq::empty()) == "digraph "@ + name + " {\n"@ + "}\n"@,
        ({
            let before = dot_text(name, style, stmts);
            let after = dot_text(name, style, stmts.push(s));
            &&& after.len() == before.len() + stmt_text(s).len()
            &&& after == before.take(before.len() - 2) + stmt_text(s) + "}\n"@
        }),
{
    reveal_strlit("");
    reveal_strlit("}\n");
    let head = "digraph "@ + name + " {\n"@;
    assert(head + ""@ + Seq::<char>::empty() + "}\n"@ =~= head + "}\n"@);
    lemma_stmts_prefix(stmts, s, stmts.len() as int);
    let before = dot_text(name, style, stmts);
    let after = dot_text(name, style, stmts.push(s));
    assert(after =~= before.take(before.len() - 2) + stmt_text(s) + "}\n"@);
}

proof fn lemma_stmts_prefix(stmts: Seq<StmtModel>, s: StmtModel, k: int)
    requires
        0 <= k <= stmts.len(),
    ensures
        super::emitter::stmts_text(stmts.push(s), k) == super::emitter::stmts_text(stmts, k),
    decreases k,
{
    if k > 0 {
        lemma_stmts_prefix(stmts, s, k - 1);
        assert(stmts.push(s)[k - 1] == stmts[k - 1]);
    }
}

/// The plain style says nothing; the dark one sets the ground, and how nodes and
/// edges look on it.
pub proof fn law_styles()
    ensures
        super::emitter::style_text(DotStyle::Plain).len() == 0,
        super::emitter::style_text(DotStyle::Dark)
            == "  bgcolor=\"#1e1e1e\";\n  node [style=filled, color=\"#888888\", fontcolor=\"#dddddd\"];\n  edge [color=\"#cccccc\"];\n"@,
{
    reveal_strlit("");
}

} // verus!
