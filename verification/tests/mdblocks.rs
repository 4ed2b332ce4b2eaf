use remarkable::mdblocks::{md_blocks, Block};

fn show(b: &Block) -> String {
    match b {
        Block::Fence => "fence".into(),
        Block::Code(s) => format!("code:{s}"),
        Block::AsideMark => "aside".into(),
        Block::Math(s) => format!("math:{s}"),
        Block::Blank => "blank".into(),
        Block::Rule => "rule".into(),
        Block::Heading(l, s) => format!("h{l}:{s}"),
        Block::Table(s) => format!("table:{s}"),
        Block::Item(m, s, a) => format!("item{}:{m}|{s}", if *a { "*" } else { "" }),
        Block::Para(s, a) => format!("para{}:{s}", if *a { "*" } else { "" }),
    }
}

fn blocks(md: &str) -> (Option<String>, Vec<String>) {
    let (t, bs) = md_blocks(md);
    (t, bs.iter().map(show).collect())
}

#[test]
fn front_matter_gives_the_title_and_is_not_shown() {
    let (t, bs) = blocks("---\ntitle: \"Notes on Rust\"\ndate: 2024\n---\n# Intro\ntext\n");
    assert_eq!(t.as_deref(), Some("Notes on Rust"));
    assert_eq!(bs, vec!["h1:Intro", "para:text"]);
    let (t, bs) = blocks("# Only\n");
    assert_eq!(t, None);
    assert_eq!(bs, vec!["h1:Only"]);
}

#[test]
fn headings_rules_and_blank_lines() {
    let (_, bs) = blocks("## Two {#anchor}\n\n---\n##### Five\n#\n***");
    assert_eq!(bs, vec!["h2:Two", "blank", "rule", "h4:Five", "para:#", "rule"]);
}

#[test]
fn fences_keep_their_lines_as_code() {
    let (_, bs) = blocks("```rust\n  let x = 1;   \n# not a heading\n```\nafter");
    assert_eq!(bs, vec!["fence", "code:  let x = 1;", "code:# not a heading", "fence", "para:after"]);
}

#[test]
fn asides_quotes_and_lists() {
    let (_, bs) = blocks("::: aside\nin aside\n- item\n:::\n> quoted\n12. twelve\nplain");
    assert_eq!(
        bs,
        vec!["aside", "para*:in aside", "item*:-|item", "aside", "para*:quoted", "item:12.|twelve", "para:plain"]
    );
}

#[test]
fn tables_drop_separator_rows_and_math_blocks_toggle() {
    let (_, bs) = blocks("| a | b |\n|---|:-:|\n$$\nx^2\n$$\nend\r\nlast");
    assert_eq!(bs, vec!["table:a b", "math:x^2", "para:end", "para:last"]);
}
