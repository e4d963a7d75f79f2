//! Generates the text of an Html page.
use vstd::prelude::*;
use vstd::string::StringExecFns;

verus! {

/// The decimal rendering of one digit.
pub open spec fn digit_text(d: nat) -> Seq<char> {
    if d == 0 {
        "0"@
    } else if d == 1 {
        "1"@
    } else if d == 2 {
        "2"@
    } else if d == 3 {
        "3"@
    } else if d == 4 {
        "4"@
    } else if d == 5 {
        "5"@
    } else if d == 6 {
        "6"@
    } else if d == 7 {
        "7"@
    } else if d == 8 {
        "8"@
    } else {
        "9"@
    }
}

/// The decimal rendering of a number: its digits from the most significant
/// down, with no leading zeros.
pub open spec fn dec_digits(v: nat) -> Seq<char>
    decreases v,
{
    if v < 10 {
        digit_text(v)
    } else {
        dec_digits(v / 10) + digit_text(v % 10)
    }
}

/// Appends the decimal rendering of a number to a string.
pub(crate) fn append_decimal(text: &mut String, value: u64)
    ensures
        final(text)@ == old(text)@ + dec_digits(value as nat),
    decreases value,
{
    let ghost entry = text@;
    if value >= 10 {
        append_decimal(text, value / 10);
    }
    let d = value % 10;
    if d == 0 {
        text.append("0");
    } else if d == 1 {
        text.append("1");
    } else if d == 2 {
        text.append("2");
    } else if d == 3 {
        text.append("3");
    } else if d == 4 {
        text.append("4");
    } else if d == 5 {
        text.append("5");
    } else if d == 6 {
        text.append("6");
    } else if d == 7 {
        text.append("7");
    } else if d == 8 {
        text.append("8");
    } else {
        text.append("9");
    }
    proof {
        assert(text@ =~= entry + dec_digits(value as nat));
    }
}

/// The pieces of the page a generator has accumulated so far.
#[verifier::ext_equal]
pub struct HtmlGeneratorModel {
    pub header: Seq<char>,
    pub body_tag_properties: Seq<char>,
    pub body: Seq<char>,
    pub list: Seq<char>,
    pub list_ordered: bool,
    pub table: Seq<char>,
}

/// This struct is used to generate the text of an Html page.
/// A limitation of HtmlGenerator is that it can't nest tables or lists
/// inside other tables or lists; it is not built for that level of
/// versatility.
pub struct HtmlGenerator {
    html_header: String,
    body_tag_properties: String,
    html_body: String,
    current_list_text: String,
    is_current_list_ordered: bool,
    current_table_text: String,
}

impl View for HtmlGenerator {
    type V = HtmlGeneratorModel;

    closed spec fn view(&self) -> HtmlGeneratorModel {
        HtmlGeneratorModel {
            header: self.html_header@,
            body_tag_properties: self.body_tag_properties@,
            body: self.html_body@,
            list: self.current_list_text@,
            list_ordered: self.is_current_list_ordered,
            table: self.current_table_text@,
        }
    }
}

/// The full page text a generator renders: the header section when one is
/// present, then the body inside its tag.
pub open spec fn full_page_text(m: HtmlGeneratorModel) -> Seq<char> {
    "<html>\n"@ + (if m.header.len() > 0 {
        "<header>\n"@ + m.header + "\n</header>\n"@
    } else {
        Seq::<char>::empty()
    }) + "<body "@ + m.body_tag_properties + ">\n"@ + m.body + "</html>\n"@
}

impl HtmlGenerator {
    /// Constructor.
    pub fn new() -> (generator: HtmlGenerator)
        ensures
            generator@ == (HtmlGeneratorModel {
                header: "<html>\n"@,
                body_tag_properties: Seq::<char>::empty(),
                body: Seq::<char>::empty(),
                list: Seq::<char>::empty(),
                list_ordered: false,
                table: Seq::<char>::empty(),
            }),
    {
        let mut html_header = String::new();
        html_header.append("<html>\n");
        HtmlGenerator {
            html_header,
            body_tag_properties: String::new(),
            html_body: String::new(),
            current_list_text: String::new(),
            is_current_list_ordered: false,
            current_table_text: String::new(),
        }
    }

    /// Adds a header to the body of the text. `header_number` is the number
    /// of the header tag; it should be from 1 to 6. If its value is wrong,
    /// this function will just use it anyways, and the page will be
    /// incorrect when displayed.
    pub fn add_header(&mut self, header_text: &str, header_number: u8)
        ensures
            final(self)@ == (HtmlGeneratorModel {
                body: old(self)@.body + "<h"@ + dec_digits(header_number as nat) + ">"@
                    + header_text@ + "</h"@ + dec_digits(header_number as nat) + ">\n\n"@,
                ..old(self)@
            }),
    {
        self.html_body.append("<h");
        append_decimal(&mut self.html_body, header_number as u64);
        self.html_body.append(">");
        self.html_body.append(header_text);
        self.html_body.append("</h");
        append_decimal(&mut self.html_body, header_number as u64);
        self.html_body.append(">\n\n");
        proof {
            assert(self@ =~= (HtmlGeneratorModel {
                body: old(self)@.body + "<h"@ + dec_digits(header_number as nat) + ">"@
                    + header_text@ + "</h"@ + dec_digits(header_number as nat) + ">\n\n"@,
                ..old(self)@
            }));
        }
    }

    /// Adds a paragraph to the body of the text.
    pub fn add_paragraph(&mut self, paragraph_text: &str)
        ensures
            final(self)@ == (HtmlGeneratorModel {
                body: old(self)@.body + "<p>"@ + paragraph_text@ + "</p>\n\n"@,
                ..old(self)@
            }),
    {
        self.html_body.append("<p>");
        self.html_body.append(paragraph_text);
        self.html_body.append("</p>\n\n");
        proof {
            assert(self@ =~= (HtmlGeneratorModel {
                body: old(self)@.body + "<p>"@ + paragraph_text@ + "</p>\n\n"@,
                ..old(self)@
            }));
        }
    }

    /// Adds a row to the current list. `row_properties` sets the internals
    /// of the row tag.
    pub fn list_add_row(&mut self, row_properties: &str, data: &str)
        ensures
            final(self)@ == (HtmlGeneratorModel {
                list: old(self)@.list + "<li "@ + row_properties@ + ">"@ + data@ + "\n"@,
                ..old(self)@
            }),
    {
        self.current_list_text.append("<li ");
        self.current_list_text.append(row_properties);
        self.current_list_text.append(">");
        self.current_list_text.append(data);
        self.current_list_text.append("\n");
        proof {
            assert(self@ =~= (HtmlGeneratorModel {
                list: old(self)@.list + "<li "@ + row_properties@ + ">"@ + data@ + "\n"@,
                ..old(self)@
            }));
        }
    }

    /// To work with lists: call `list_create`, then `list_add_row` for each
    /// row, then `list_end`. Only one list can exist at a time: creating a
    /// new list while the old one has not been ended loses the old list,
    /// and a list that is never ended is never added to the text.
    pub fn list_create(&mut self, is_ordered: bool, list_properties: &str)
        ensures
            final(self)@ == (HtmlGeneratorModel {
                list: (if is_ordered {
                    "<ol "@
                } else {
                    "<ul "@
                }) + list_properties@ + ">\n"@,
                list_ordered: is_ordered,
                ..old(self)@
            }),
    {
        self.is_current_list_ordered = is_ordered;
        let mut list_text = String::new();
        if is_ordered {
            list_text.append("<ol ");
        } else {
            list_text.append("<ul ");
        }
        list_text.append(list_properties);
        list_text.append(">\n");
        self.current_list_text = list_text;
        proof {
            assert(self@ =~= (HtmlGeneratorModel {
                list: (if is_ordered {
                    "<ol "@
                } else {
                    "<ul "@
                }) + list_properties@ + ">\n"@,
                list_ordered: is_ordered,
                ..old(self)@
            }));
        }
    }

    /// Ends the current list, adding it to the body.
    pub fn list_end(&mut self)
        ensures
            final(self)@ == (HtmlGeneratorModel {
                body: old(self)@.body + old(self)@.list + (if old(self)@.list_ordered {
                    "</ol>\n"@
                } else {
                    "</ul>\n"@
                }),
                list: Seq::<char>::empty(),
                ..old(self)@
            }),
    {
        self.html_body.append(self.current_list_text.as_str());
        if self.is_current_list_ordered {
            self.html_body.append("</ol>\n");
        } else {
            self.html_body.append("</ul>\n");
        }
        self.current_list_text = String::new();
        proof {
            assert(self@ =~= (HtmlGeneratorModel {
                body: old(self)@.body + old(self)@.list + (if old(self)@.list_ordered {
                    "</ol>\n"@
                } else {
                    "</ul>\n"@
                }),
                list: Seq::<char>::empty(),
                ..old(self)@
            }));
        }
    }

    /// Adds a data cell to the current table.
    pub fn table_add_data(&mut self, data_properties: &str, data: &str)
        ensures
            final(self)@ == (HtmlGeneratorModel {
                table: old(self)@.table + "<td "@ + data_properties@ + ">"@ + data@ + "\n"@,
                ..old(self)@
            }),
    {
        self.table_add_data_cell(false, data_properties, data);
    }

    /// Adds a data header cell to the current table.
    pub fn table_add_header(&mut self, data_properties: &str, data: &str)
        ensures
            final(self)@ == (HtmlGeneratorModel {
                table: old(self)@.table + "<th "@ + data_properties@ + ">"@ + data@ + "\n"@,
                ..old(self)@
            }),
    {
        self.table_add_data_cell(true, data_properties, data);
    }

    /// Adds a row to the current table. `row_properties` sets the internals
    /// of the row tag.
    pub fn table_add_row(&mut self, row_properties: &str)
        ensures
            final(self)@ == (HtmlGeneratorModel {
                table: old(self)@.table + "<tr "@ + row_properties@ + ">\n"@,
                ..old(self)@
            }),
    {
        self.current_table_text.append("<tr ");
        self.current_table_text.append(row_properties);
        self.current_table_text.append(">\n");
        proof {
            assert(self@ =~= (HtmlGeneratorModel {
                table: old(self)@.table + "<tr "@ + row_properties@ + ">\n"@,
                ..old(self)@
            }));
        }
    }

    /// To work with tables: call `table_create`, then `table_add_row` for
    /// each row, then `table_add_data` or `table_add_header` for each cell
    /// of each row, then `table_end`. Only one table can exist at a time:
    /// creating a new table while the old one has not been ended loses the
    /// old table, and a table that is never ended is never added to the
    /// text.
    pub fn table_create(&mut self, table_properties: &str)
        ensures
            final(self)@ == (HtmlGeneratorModel {
                table: "<table "@ + table_properties@ + ">\n"@,
                ..old(self)@
            }),
    {
        let mut table_text = String::new();
        table_text.append("<table ");
        table_text.append(table_properties);
        table_text.append(">\n");
        self.current_table_text = table_text;
        proof {
            assert(self@ =~= (HtmlGeneratorModel {
                table: "<table "@ + table_properties@ + ">\n"@,
                ..old(self)@
            }));
        }
    }

    /// See `table_create` for information about working with tables. This
    /// variant creates a table whose border size equals the parameter; any
    /// more complicated table tag has to use `table_create` instead.
    pub fn table_create_with_border(&mut self, border: u8)
        ensures
            final(self)@ == (HtmlGeneratorModel {
                table: "<table "@ + ("border=\""@ + dec_digits(border as nat) + "\""@) + ">\n"@,
                ..old(self)@
            }),
    {
        let mut properties = String::new();
        properties.append("border=\"");
        append_decimal(&mut properties, border as u64);
        properties.append("\"");
        self.table_create(properties.as_str());
    }

    /// Ends the current table, adding it to the body.
    pub fn table_end(&mut self)
        ensures
            final(self)@ == (HtmlGeneratorModel {
                body: old(self)@.body + old(self)@.table + "</table>\n"@,
                list: old(self)@.list,
                table: Seq::<char>::empty(),
                ..old(self)@
            }),
    {
        self.html_body.append(self.current_table_text.as_str());
        self.html_body.append("</table>\n");
        self.current_table_text = String::new();
        proof {
            assert(self@ =~= (HtmlGeneratorModel {
                body: old(self)@.body + old(self)@.table + "</table>\n"@,
                table: Seq::<char>::empty(),
                ..old(self)@
            }));
        }
    }

    /// The full text of the generated page.
    pub fn get_full_text(&self) -> (text: String)
        ensures
            text@ == full_page_text(self@),
    {
        let mut text = String::new();
        text.append("<html>\n");
        if !self.html_header.as_str().is_empty() {
            text.append("<header>\n");
            text.append(self.html_header.as_str());
            text.append("\n</header>\n");
        }
        text.append("<body ");
        text.append(self.body_tag_properties.as_str());
        text.append(">\n");
        text.append(self.html_body.as_str());
        text.append("</html>\n");
        proof {
            assert(text@ =~= full_page_text(self@));
        }
        text
    }

    // This helper function does the work for table_add_data and
    // table_add_header.
    fn table_add_data_cell(&mut self, is_header: bool, data_properties: &str, data: &str)
        ensures
            final(self)@ == (HtmlGeneratorModel {
                table: old(self)@.table + (if is_header {
                    "<th "@
                } else {
                    "<td "@
                }) + data_properties@ + ">"@ + data@ + "\n"@,
                ..old(self)@
            }),
    {
        if is_header {
            self.current_table_text.append("<th ");
        } else {
            self.current_table_text.append("<td ");
        }
        self.current_table_text.append(data_properties);
        self.current_table_text.append(">");
        self.current_table_text.append(data);
        self.current_table_text.append("\n");
        proof {
            assert(self@ =~= (HtmlGeneratorModel {
                table: old(self)@.table + (if is_header {
                    "<th "@
                } else {
                    "<td "@
                }) + data_properties@ + ">"@ + data@ + "\n"@,
                ..old(self)@
            }));
        }
    }
}

} // verus!
