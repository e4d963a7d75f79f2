use rust_logic_tools::html_text::HtmlGenerator;
use rust_logic_tools::truth_table_size_5::add_html_for_truth_table_size_5;

#[test]
fn empty_page_has_header_and_body() {
    let generator = HtmlGenerator::new();
    assert_eq!(
        generator.get_full_text(),
        "<html>\n<header>\n<html>\n\n</header>\n<body >\n</html>\n"
    );
}

#[test]
fn paragraphs_and_headers_land_in_the_body() {
    let mut generator = HtmlGenerator::new();
    generator.add_header("Title", 3);
    generator.add_paragraph("Some text.");
    let page = generator.get_full_text();
    assert!(page.contains("<h3>Title</h3>\n\n"));
    assert!(page.contains("<p>Some text.</p>\n\n"));
}

#[test]
fn lists_collect_rows_until_ended() {
    let mut generator = HtmlGenerator::new();
    generator.list_create(true, "class=\"x\"");
    generator.list_add_row("id=\"a\"", "first");
    generator.list_add_row("", "second");
    generator.list_end();
    let page = generator.get_full_text();
    assert!(page.contains("<ol class=\"x\">\n<li id=\"a\">first\n<li >second\n</ol>\n"));
}

#[test]
fn unordered_lists_close_with_ul() {
    let mut generator = HtmlGenerator::new();
    generator.list_create(false, "");
    generator.list_add_row("", "only");
    generator.list_end();
    assert!(generator.get_full_text().contains("<ul >\n<li >only\n</ul>\n"));
}

#[test]
fn tables_collect_rows_and_cells_until_ended() {
    let mut generator = HtmlGenerator::new();
    generator.table_create_with_border(2);
    generator.table_add_row("");
    generator.table_add_header("", "head");
    generator.table_add_data("", "cell");
    generator.table_end();
    let page = generator.get_full_text();
    assert!(page.contains("<table border=\"2\">\n<tr >\n<th >head\n<td >cell\n</table>\n"));
}

#[test]
fn truth_table_html_for_one_boolean() {
    let mut generator = HtmlGenerator::new();
    let list = vec![String::from("p1")];
    let result = add_html_for_truth_table_size_5(&mut generator, 0b10, "t", &list);
    assert!(result.is_ok());
    let page = generator.get_full_text();
    let expected_table = "<h3>t</h3>\n\n<table border=\"1\">\n<tr >\n<th >p1\n<th >t\n\
                          <tr >\n<td >T\n<td >T\n<tr >\n<td >F\n<td >F\n</table>\n";
    assert!(page.contains(expected_table));
}

#[test]
fn truth_table_html_for_two_booleans_orders_rows_from_all_true() {
    let mut generator = HtmlGenerator::new();
    let list = vec![String::from("p"), String::from("q")];
    // True exactly when p = q: rows TT and FF.
    let result = add_html_for_truth_table_size_5(&mut generator, 0b1001, "eq", &list);
    assert!(result.is_ok());
    let page = generator.get_full_text();
    let expected_rows = "<tr >\n<td >T\n<td >T\n<td >T\n\
                         <tr >\n<td >T\n<td >F\n<td >F\n\
                         <tr >\n<td >F\n<td >T\n<td >F\n\
                         <tr >\n<td >F\n<td >F\n<td >T\n</table>\n";
    assert!(page.contains(expected_rows));
}

#[test]
fn too_many_booleans_yields_an_error() {
    let mut generator = HtmlGenerator::new();
    let mut list = Vec::new();
    for i in 1..=6 {
        list.push(format!("p{}", i));
    }
    let result = add_html_for_truth_table_size_5(&mut generator, 0, "mytable", &list);
    match result {
        Ok(()) => panic!("expected an error for six booleans"),
        Err(message) => {
            assert_eq!(
                message,
                "INTERNAL ERROR: Too many booleans 6 for table mytable \
                 in get_html_for_truth_table_size_5"
            );
        }
    }
}
