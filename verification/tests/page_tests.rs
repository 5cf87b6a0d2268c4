use getquotes::page::quotes_from_html;

#[test]
fn reads_each_list_item_of_a_section() {
    let quotes = quotes_from_html("<div><ul><li>Quote 1</li><li>Quote 2</li></ul></div>");
    assert_eq!(quotes, vec!["Quote 1", "Quote 2"]);
}

#[test]
fn a_section_without_list_items_has_no_quotes() {
    assert!(quotes_from_html("<div><ul></ul></div>").is_empty());
    assert!(quotes_from_html("").is_empty());
    assert!(quotes_from_html("plain text").is_empty());
}

#[test]
fn tags_inside_items_are_removed_and_text_trimmed() {
    let quotes = quotes_from_html("<ul><li>  <b>Bold</b> and <i>tilted</i> words \n</li></ul>");
    assert_eq!(quotes, vec!["Bold and tilted words"]);
}

#[test]
fn empty_items_are_left_out() {
    let quotes = quotes_from_html("<li></li><li> <br/> </li><li>Kept</li>");
    assert_eq!(quotes, vec!["Kept"]);
}

#[test]
fn an_unclosed_item_runs_to_the_next_item() {
    let quotes = quotes_from_html("<li>First<li>Second</li>");
    assert_eq!(quotes, vec!["First", "Second"]);
}

#[test]
fn nested_lists_give_their_items_too() {
    let quotes = quotes_from_html("<li>Outer<ul><li>Inner</li></ul></li>");
    assert_eq!(quotes, vec!["Outer", "Inner"]);
}
