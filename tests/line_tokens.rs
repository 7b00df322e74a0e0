use syntax_tokens::{line_length, line_tokens, Lexeme, LineIterator, Position, Token};
use syntax_tokens::token_iterator::apply_changes;
use syntect::parsing::{ClearAmount, Scope, ScopeStack, ScopeStackOp};

fn lexeme<'a>(value: &'a str, scope: Option<Scope>, line: usize, offset: usize) -> Token<'a> {
    Token::Lexeme(Lexeme { value, scope, position: Position { line, offset } })
}

#[test]
fn line_length_leaves_out_the_terminator() {
    assert_eq!(line_length("abc\n"), 3);
    assert_eq!(line_length("abc"), 3);
    assert_eq!(line_length("\n"), 0);
    assert_eq!(line_length(""), 0);
    assert_eq!(line_length("é\n"), 2);
}

#[test]
fn line_is_split_at_each_scope_change() {
    let a = Scope::new("storage.type").unwrap();
    let b = Scope::new("meta.struct").unwrap();
    let c = Scope::new("entity.name").unwrap();
    let tokens = line_tokens("struct Foo {\n", 0, &vec![0, 6, 7, 10], &vec![None, Some(a), Some(b), Some(c)], Some(b));
    assert_eq!(
        tokens,
        vec![
            lexeme("struct", Some(a), 0, 0),
            lexeme(" ", Some(b), 0, 6),
            lexeme("Foo", Some(c), 0, 7),
            lexeme(" {", Some(b), 0, 10),
        ]
    );
}

#[test]
fn later_lines_start_with_a_newline() {
    let tokens = line_tokens("}\n", 1, &vec![], &vec![], None);
    assert_eq!(tokens, vec![Token::Newline, lexeme("}", None, 1, 0)]);
}

#[test]
fn line_without_changes_is_one_lexeme() {
    let s = Scope::new("source.rust").unwrap();
    let tokens = line_tokens("let x = 1;\n", 0, &vec![], &vec![], Some(s));
    assert_eq!(tokens, vec![lexeme("let x = 1;", Some(s), 0, 0)]);
}

#[test]
fn empty_line_has_no_lexeme() {
    assert!(line_tokens("\n", 0, &vec![], &vec![], None).is_empty());
    assert_eq!(line_tokens("", 2, &vec![0], &vec![None], None), vec![Token::Newline]);
}

#[test]
fn changes_at_one_offset_give_no_empty_lexeme() {
    let a = Scope::new("a").unwrap();
    let b = Scope::new("b").unwrap();
    let c = Scope::new("c").unwrap();
    let tokens = line_tokens("ab", 0, &vec![0, 0, 1, 1], &vec![None, Some(a), Some(b), Some(c)], Some(c));
    assert_eq!(tokens, vec![lexeme("a", Some(b), 0, 0), lexeme("b", Some(c), 0, 1)]);
}

#[test]
fn change_past_the_content_keeps_the_terminator_out() {
    let a = Scope::new("comment.line").unwrap();
    let tokens = line_tokens("// x\n", 0, &vec![0, 5], &vec![None, Some(a)], None);
    assert_eq!(tokens, vec![lexeme("// x", Some(a), 0, 0)]);
}

#[test]
fn change_inside_a_character_does_not_split_it() {
    let a = Scope::new("string").unwrap();
    let tokens = line_tokens("éa", 0, &vec![1, 2], &vec![None, Some(a)], None);
    assert_eq!(tokens, vec![lexeme("é", Some(a), 0, 0), lexeme("a", None, 0, 2)]);
}

#[test]
fn apply_changes_records_the_scope_before_each_change() {
    let a = Scope::new("source.rust").unwrap();
    let b = Scope::new("storage.type").unwrap();
    let mut stack = ScopeStack::new();
    let changes = vec![(0, ScopeStackOp::Push(a)), (0, ScopeStackOp::Push(b)), (6, ScopeStackOp::Pop(1))];
    let (offsets, tops, last) = apply_changes(&mut stack, &changes);
    assert_eq!(offsets, vec![0, 0, 6]);
    assert_eq!(tops, vec![None, Some(a), Some(b)]);
    assert_eq!(last, Some(a));
    assert_eq!(stack.as_slice(), &[a][..]);
}

#[test]
fn line_iterator_keeps_terminators_and_a_final_line() {
    let mut lines = LineIterator::new("a\n\nb");
    assert_eq!(lines.next(), Some((0, "a\n")));
    assert_eq!(lines.next(), Some((1, "\n")));
    assert_eq!(lines.next(), Some((2, "b")));
    assert_eq!(lines.next(), None);
    assert_eq!(lines.next(), None);

    let mut lines = LineIterator::new("a\n");
    assert_eq!(lines.next(), Some((0, "a\n")));
    assert_eq!(lines.next(), Some((1, "")));
    assert_eq!(lines.next(), None);

    let mut lines = LineIterator::new("");
    assert_eq!(lines.next(), Some((0, "")));
    assert_eq!(lines.next(), None);
}

#[test]
fn cleared_scopes_come_back_on_restore() {
    let a = Scope::new("source.rust").unwrap();
    let b = Scope::new("meta.block").unwrap();
    let mut stack = ScopeStack::new();
    let changes = vec![
        (0, ScopeStackOp::Push(a)),
        (0, ScopeStackOp::Push(b)),
        (1, ScopeStackOp::Clear(ClearAmount::TopN(1))),
        (2, ScopeStackOp::Restore),
        (3, ScopeStackOp::Clear(ClearAmount::All)),
        (4, ScopeStackOp::Restore),
        (5, ScopeStackOp::Restore),
        (6, ScopeStackOp::Noop),
    ];
    let (_, tops, last) = apply_changes(&mut stack, &changes);
    assert_eq!(tops, vec![None, Some(a), Some(b), Some(a), Some(b), None, Some(b), Some(b)]);
    assert_eq!(last, Some(b));
    assert_eq!(stack.as_slice(), &[a, b][..]);
}
