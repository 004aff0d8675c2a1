use std::rc::Rc;

use fift_core::cont::{ContNode, Prim};
use fift_core::context::{Context, Dictionary, DictionaryEntry};
use fift_core::error::Error;
use fift_core::interp::resolve_token;
use fift_core::lexer::{Lexer, SourceBlock, Token, Whitespace};

fn chars(s: &str) -> Vec<char> {
    s.chars().collect()
}

fn lexer_over(text: &str) -> Lexer {
    let mut lx = Lexer::new();
    lx.push_source_block(SourceBlock::from_text("blk".to_string(), &chars(text)));
    lx
}

fn word(lx: &mut Lexer) -> Option<String> {
    lx.scan_word().map(|t| t.data.iter().collect())
}

#[test]
fn splits_text_into_lines() {
    let b = SourceBlock::from_text("x".to_string(), &chars("ab\ncd\n\nef"));
    let lines: Vec<String> = b.lines.iter().map(|l| l.iter().collect()).collect();
    assert_eq!(lines, vec!["ab\n", "cd\n", "\n", "ef"]);
    assert_eq!(b.name(), "x");
}

#[test]
fn scans_words_across_lines() {
    let mut lx = lexer_over("  one two\n\n   three\t four  ");
    assert_eq!(word(&mut lx).as_deref(), Some("one"));
    assert_eq!(word(&mut lx).as_deref(), Some("two"));
    assert_eq!(word(&mut lx).as_deref(), Some("three"));
    assert_eq!(word(&mut lx).as_deref(), Some("four"));
    assert_eq!(word(&mut lx), None);
}

#[test]
fn empty_input_has_no_word() {
    let mut lx = lexer_over("");
    assert_eq!(word(&mut lx), None);
    let mut none = Lexer::new();
    assert!(none.scan_word().is_none());
}

#[test]
fn scan_until_delimiter_consumes_it() {
    let mut lx = lexer_over("ab\"cd\" rest\n");
    let t = lx.scan_until_delimiter('"').ok().unwrap();
    assert_eq!(t.data, chars("ab"));
    let t = lx.scan_until_delimiter('"').ok().unwrap();
    assert_eq!(t.data, chars("cd"));
    assert_eq!(word(&mut lx).as_deref(), Some("rest"));
}

#[test]
fn scan_until_missing_delimiter_is_eof() {
    let mut lx = lexer_over("no end here\n");
    assert!(matches!(lx.scan_until_delimiter('"'), Err(Error::UnexpectedEof)));
    let mut lx = lexer_over("no end here\n");
    let t = lx.scan_until_delimiter('\0').ok().unwrap();
    assert!(t.data.is_empty());
    let mut none = Lexer::new();
    assert!(matches!(none.scan_until_delimiter('x'), Err(Error::UnexpectedEof)));
}

#[test]
fn scan_until_whitespace_predicate() {
    let mut lx = lexer_over("abc def");
    let t = lx.scan_until(Whitespace).ok().unwrap();
    assert_eq!(t.data, chars("abc"));
    assert_eq!(word(&mut lx).as_deref(), Some("def"));
}

#[test]
fn rewind_backs_up() {
    let mut lx = lexer_over("hello world");
    assert_eq!(word(&mut lx).as_deref(), Some("hello"));
    lx.rewind(3);
    assert_eq!(word(&mut lx).as_deref(), Some("llo"));
}

#[test]
fn skip_symbol_and_skip_while() {
    let mut lx = lexer_over("go xxab cd");
    // the line-level skips work on the line already read
    lx.skip_while('x');
    assert_eq!(word(&mut lx).as_deref(), Some("go"));
    lx.skip_line_whitespace();
    lx.skip_while('x');
    lx.skip_symbol();
    assert_eq!(word(&mut lx).as_deref(), Some("b"));
    lx.skip_line_whitespace();
    lx.skip_until('d');
    assert_eq!(word(&mut lx).as_deref(), Some("d"));
}

#[test]
fn scan_skip_whitespace_reads_lines() {
    let mut lx = lexer_over("   \n  \n  x");
    lx.scan_skip_whitespace();
    let p = lx.get_position().unwrap();
    assert_eq!(p.line, chars("  x"));
    assert_eq!(p.line_offset_end, 2);
    assert_eq!(p.line_number, 2);
}

#[test]
fn scan_until_space_or_eof_gives_empty_at_end() {
    let mut lx = lexer_over("a");
    assert_eq!(lx.scan_until_space_or_eof().data, chars("a"));
    assert!(lx.scan_until_space_or_eof().data.is_empty());
}

#[test]
fn position_reports_block_and_span() {
    let mut lx = lexer_over("first second\n");
    assert!(Lexer::new().get_position().is_none());
    word(&mut lx);
    word(&mut lx);
    let p = lx.get_position().unwrap();
    assert_eq!(p.offset, 1);
    assert_eq!(p.source_block_name, "blk");
    assert_eq!(p.line_offset_start, 6);
    assert_eq!(p.line_offset_end, 12);
    assert_eq!(p.line_number, 0);
}

#[test]
fn blocks_nest() {
    let mut lx = lexer_over("outer");
    lx.push_source_block(SourceBlock::from_text("inner".to_string(), &chars("in")));
    assert_eq!(word(&mut lx).as_deref(), Some("in"));
    assert_eq!(word(&mut lx), None);
    assert!(lx.pop_source_block());
    assert_eq!(word(&mut lx).as_deref(), Some("outer"));
    assert!(lx.pop_source_block());
    assert!(!lx.pop_source_block());
}

#[test]
fn subtokens_longest_first() {
    let t = Token { data: chars("abc") };
    let mut subs = t.subtokens();
    let mut seen = Vec::new();
    while let Some(s) = subs.next() {
        seen.push(s.iter().collect::<String>());
    }
    assert_eq!(seen, vec!["abc", "ab", "a"]);
    assert_eq!(t.delta(&chars("a")), 2);
}

#[test]
fn unicode_whitespace_separates() {
    let mut lx = lexer_over("a\u{3000}b\u{a0}c");
    assert_eq!(word(&mut lx).as_deref(), Some("a"));
    assert_eq!(word(&mut lx).as_deref(), Some("b"));
    assert_eq!(word(&mut lx).as_deref(), Some("c"));
}

#[test]
fn longest_prefix_word_wins_and_rest_is_rescanned() {
    let mut d = Dictionary::new();
    let entry = |p| DictionaryEntry { definition: Rc::new(ContNode::Word(p)), active: false };
    d.define(chars("ab"), entry(Prim::Dup));
    d.define(chars("abc"), entry(Prim::Drop));
    let mut ctx = Context::new(d);
    ctx.input.push_source_block(SourceBlock::from_text("t".to_string(), &chars("abcde")));
    let tok = ctx.input.scan_word().unwrap();
    let e = resolve_token(&mut ctx, &tok).unwrap();
    assert!(matches!(*e.definition, ContNode::Word(Prim::Drop)));
    assert_eq!(word(&mut ctx.input).as_deref(), Some("de"));

    // no prefix is a word: the token with a space appended is looked up
    let mut d = Dictionary::new();
    d.define(chars("xy "), entry(Prim::Swap));
    let mut ctx = Context::new(d);
    ctx.input.push_source_block(SourceBlock::from_text("t".to_string(), &chars("xy z")));
    let tok = ctx.input.scan_word().unwrap();
    let e = resolve_token(&mut ctx, &tok).unwrap();
    assert!(matches!(*e.definition, ContNode::Word(Prim::Swap)));
    assert_eq!(word(&mut ctx.input).as_deref(), Some("z"));
}

#[test]
fn line_number_counts_lines_read() {
    let mut lx = lexer_over("a\nb\n");
    assert_eq!(word(&mut lx).as_deref(), Some("a"));
    assert_eq!(lx.get_position().unwrap().line_number, 0);
    assert_eq!(word(&mut lx).as_deref(), Some("b"));
    assert_eq!(word(&mut lx), None);
    assert_eq!(word(&mut lx), None);
    assert_eq!(lx.get_position().unwrap().line_number, 1);
}
