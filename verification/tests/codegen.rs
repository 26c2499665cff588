use blogger::backend::codegen::{GenerationError, Generator};
use blogger::compile_source;
use blogger::errors::BloggerError;
use blogger::parse_source;

fn lines(src: &str) -> Vec<String> {
    compile_source(src)
        .expect("the source should compile")
        .lines()
        .map(|l| l.to_string())
        .collect()
}

#[test]
fn empty_article_gives_an_empty_heading() {
    assert_eq!(
        compile_source("article{}").unwrap(),
        "<h1 className='text-4xl font-bold'></h1>\n"
    );
}

#[test]
fn article_name_goes_into_the_heading() {
    assert_eq!(
        compile_source("article Hello { }").unwrap(),
        "<h1 className='text-4xl font-bold'>Hello</h1>\n"
    );
}

#[test]
fn heading_is_written_as_h3() {
    assert_eq!(
        lines("article A { s } section s { paragraph { h1{ Hi } } }"),
        vec![
            "<h1 className='text-4xl font-bold'>A</h1>",
            "<br/>",
            "<br/>",
            "<h3 className='text-3xl'>Hi</h3>",
        ]
    );
}

#[test]
fn text_block_is_written_as_a_paragraph() {
    assert_eq!(
        lines("article X { s } section s { paragraph { `foo bar` } }"),
        vec![
            "<h1 className='text-4xl font-bold'>X</h1>",
            "<br/>",
            "<br/>",
            "<p>foo bar</p>",
        ]
    );
}

#[test]
fn ordered_list_is_written_item_by_item() {
    assert_eq!(
        lines("article X { s } section s { paragraph { ol{ li{a} li{b} } } }"),
        vec![
            "<h1 className='text-4xl font-bold'>X</h1>",
            "<br/>",
            "<br/>",
            "<ol className='list-inside list-decimal px-8'>",
            "<li>a</li>",
            "<li>b</li>",
            "</ol>",
        ]
    );
}

#[test]
fn unordered_list_code_and_aside_use_their_templates() {
    assert_eq!(
        compile_source(
            "article X { s } section s { paragraph { ul{ li{a} } code{ `let x` } aside{ `n b` } } }"
        )
        .unwrap(),
        "<h1 className='text-4xl font-bold'>X</h1>\n<br/>\n<br/>\n\
         <ul className='list-disc list-inside px-8'>\n<li>a</li>\n</ul>\n\
         <pre className='w-full overflow-x-auto'><code>{`let x`}</code></pre>\n\
         \n            <div className='p-8 bg-opacity-10 bg-black italic'>\n                <p>n b</p>\n            </div>\n            \n"
    );
}

#[test]
fn two_articles_do_not_compile() {
    let err = compile_source("article A { } article B { }").unwrap_err();
    match err {
        BloggerError::ParseError(text) => assert_eq!(
            text,
            "Parse error: Multiple article declarations found at \nLine: 0, Column: 14\n>> 'article A { } article B { }'\n   --------------^^^^^^^^-----"
        ),
        other => panic!("unexpected error: {:?}", other),
    }
}

#[test]
fn sections_are_written_in_the_order_of_the_calls() {
    assert_eq!(
        lines("section b { paragraph { `B` } } section a { paragraph { `A` } } article { a b a }"),
        vec![
            "<h1 className='text-4xl font-bold'></h1>",
            "<br/>",
            "<br/>",
            "<p>A</p>",
            "<br/>",
            "<br/>",
            "<p>B</p>",
            "<br/>",
            "<br/>",
            "<p>A</p>",
        ]
    );
}

#[test]
fn compile_appends_to_the_buffer() {
    let source = "article T { }".to_string();
    let program = parse_source(&source).unwrap();
    let mut generator = Generator::new(program);
    let mut buf = String::from("before\n");
    assert!(generator.compile(&mut buf).is_ok());
    assert_eq!(buf, "before\n<h1 className='text-4xl font-bold'>T</h1>\n");
    assert_eq!(
        generator.render(),
        "<h1 className='text-4xl font-bold'>T</h1>\n"
    );
}

#[test]
fn errors_show_their_kind() {
    let e = GenerationError::new("disk full");
    assert_eq!(e.msg, "disk full");
    assert_eq!(e.to_string(), "Compile error: disk full");
    assert_eq!(
        BloggerError::from_codegen(&e).to_string(),
        "Blogger Error: Compile error: disk full"
    );
    assert_eq!(
        BloggerError::RegexError("Unmatched '('".to_string()).to_string(),
        "Blogger Error: Unmatched '('"
    );
    assert_eq!(
        BloggerError::CommandError("x".to_string()).to_string(),
        "Blogger Error: x"
    );
    let io = std::io::Error::new(std::io::ErrorKind::Other, "gone");
    assert_eq!(
        BloggerError::from_io(io).to_string(),
        "Blogger Error: IO error: gone"
    );
}

#[test]
fn lexer_failure_ends_the_compilation() {
    match compile_source("article A { ~ }").unwrap_err() {
        BloggerError::ParseError(text) => {
            assert!(text.starts_with("Parse error: Lexer Error: Unexpected character '~' at: "))
        }
        other => panic!("unexpected error: {:?}", other),
    }
}
