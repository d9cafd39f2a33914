//! Tests of the SQL text grammar: each parser hands back the position
//! just past what it consumed, so the remaining input is the slice from
//! there.

use sqlite_reader::error::Error;
use sqlite_reader::parsers::{
    and_conditions, col_defs, eq_condition, keyword, parse_create_index, parse_create_table,
    parse_select, quoted, scan_word_or_fn, select_cols,
};
use sqlite_reader::table::TableColumn;

fn owned(items: &[&[u8]]) -> Vec<Vec<u8>> {
    items.iter().map(|s| s.to_vec()).collect()
}

#[test]
fn it_parses_create_index_sentences() {
    let input = b"CREATE INDEX idx_companies_country\non companies (country)";
    let (pos, (columns, index)) = parse_create_index(input).unwrap();
    assert_eq!(&input[pos..], b"");
    assert_eq!(columns, owned(&[b"country"]));
    assert_eq!(index, b"idx_companies_country".to_vec());
}

#[test]
fn it_parses_and_separated_conditions() {
    let input = b"foo = 'bar' and baz = \"foobarbaz\"";
    let (pos, parsed) = and_conditions(input, 0);
    assert_eq!(&input[pos..], b"");
    assert_eq!(
        parsed,
        vec![
            (b"foo".to_vec(), b"bar".to_vec()),
            (b"baz".to_vec(), b"foobarbaz".to_vec())
        ]
    );
}

#[test]
fn it_parses_eq_condition() {
    let input = b"foo = 'bar'";
    let (_, (col, val)) = eq_condition(input, 0).unwrap();
    assert_eq!(col, b"foo".to_vec());
    assert_eq!(val, b"bar".to_vec());

    let input = b"\nfoo = bar and ...";
    let (pos, (col, val)) = eq_condition(input, 0).unwrap();
    assert_eq!(&input[pos..], b" and ...");
    assert_eq!(col, b"foo".to_vec());
    assert_eq!(val, b"bar".to_vec());
}

#[test]
fn it_parses_create_table_sentences() {
    let input = b"CREATE TABLE sqlite_schema(\n\
                type text,\n\
                name text,\n\
                tbl_name text,\n\
                rootpage integer,\n\
                sql text\n\
            );";
    let (_, (columns, table)) = parse_create_table(input).unwrap();
    assert_eq!(
        columns,
        owned(&[
            b"type text",
            b"name text",
            b"tbl_name text",
            b"rootpage integer",
            b"sql text\n",
        ])
    );
    assert_eq!(table, b"sqlite_schema".to_vec());

    let input = b"CREATE TABLE oranges\n\
            (\n\
                id integer primary key autoincrement,\n\
                name text,\n\
                description text\n\
            );";
    let (_, (columns, table)) = parse_create_table(input).unwrap();
    assert_eq!(
        columns,
        owned(&[
            b"id integer primary key autoincrement",
            b"name text",
            b"description text\n",
        ])
    );
    assert_eq!(table, b"oranges".to_vec());

    let input = b"CREATE TABLE watermelon (id integer primary key, name text)";
    let (_, (columns, table)) = parse_create_table(input).unwrap();
    assert_eq!(columns, owned(&[b"id integer primary key", b"name text"]));
    assert_eq!(table, b"watermelon".to_vec());

    let input = b"CREATE TABLE \"superheroes\" (id integer primary key autoincrement, name text not null, eye_color text, hair_color text, appearance_count integer, first_appearance text, first_appearance_year text)";
    let (_, (columns, table)) = parse_create_table(input).unwrap();
    assert_eq!(
        columns,
        owned(&[
            b"id integer primary key autoincrement",
            b"name text not null",
            b"eye_color text",
            b"hair_color text",
            b"appearance_count integer",
            b"first_appearance text",
            b"first_appearance_year text",
        ])
    );
    assert_eq!(table, b"superheroes".to_vec());

    let input = b"CREATE TABLE companies\n\
            (\n\
                id integer primary key autoincrement, name text, domain text, year_founded text, industry text, \"size range\" text, locality text, country text, current_employees text, total_employees text)";
    let (_, (columns, table)) = parse_create_table(input).unwrap();
    assert_eq!(
        columns,
        owned(&[
            b"id integer primary key autoincrement",
            b"name text",
            b"domain text",
            b"year_founded text",
            b"industry text",
            b"\"size range\" text",
            b"locality text",
            b"country text",
            b"current_employees text",
            b"total_employees text",
        ])
    );
    assert_eq!(table, b"companies".to_vec());
}

#[test]
fn it_parses_comma_separated_column_definitions() {
    let input = b"\n\
                type text,\n\
                name text\n\
            ";
    let (pos, parsed) = col_defs(input, 0);
    assert_eq!(&input[pos..], b"");
    assert_eq!(parsed, owned(&[b"type text", b"name text\n"]));

    let input = b"\n tbl_name text,rootpage  integer";
    let (pos, parsed) = col_defs(input, 0);
    assert_eq!(&input[pos..], b"");
    assert_eq!(parsed, owned(&[b"tbl_name text", b"rootpage  integer"]));

    let input = b"id integer primary key autoincrement,\n\tname  text";
    let (pos, parsed) = col_defs(input, 0);
    assert_eq!(&input[pos..], b"");
    assert_eq!(
        parsed,
        owned(&[b"id integer primary key autoincrement", b"name  text"])
    );

    let input = b"id integer, \"size range\" text";
    let (pos, parsed) = col_defs(input, 0);
    assert_eq!(&input[pos..], b"");
    assert_eq!(parsed, owned(&[b"id integer", b"\"size range\" text"]));
}

#[test]
fn it_parses_select_sentences() {
    let input = b"SELECT name, producer FROM apples";
    let (_, (columns, table, _)) = parse_select(input).unwrap();
    assert_eq!(columns, owned(&[b"name", b"producer"]));
    assert_eq!(table, b"apples".to_vec());

    let input = b"SELECT * FROM oranges";
    let (_, (columns, table, _)) = parse_select(input).unwrap();
    assert_eq!(columns, owned(&[b"*"]));
    assert_eq!(table, b"oranges".to_vec());

    let input = b"SELECT name, foo_bar FROM grapes";
    let (_, (columns, table, _)) = parse_select(input).unwrap();
    assert_eq!(columns, owned(&[b"name", b"foo_bar"]));
    assert_eq!(table, b"grapes".to_vec());

    let input = b"SELECT count(*) FROM grapes";
    let (_, (columns, table, _)) = parse_select(input).unwrap();
    assert_eq!(columns, owned(&[b"count(*)"]));
    assert_eq!(table, b"grapes".to_vec());

    let input = b"SELECT name, color FROM apples WHERE color = 'Yellow'";
    let (_, (columns, table, conditions)) = parse_select(input).unwrap();
    assert_eq!(columns, owned(&[b"name", b"color"]));
    assert_eq!(table, b"apples".to_vec());
    assert_eq!(conditions, vec![(b"color".to_vec(), b"Yellow".to_vec())]);

    let input = b"SELECT id, name FROM superheroes WHERE eye_color = 'Pink Eyes'";
    let (_, (columns, table, conditions)) = parse_select(input).unwrap();
    assert_eq!(columns, owned(&[b"id", b"name"]));
    assert_eq!(table, b"superheroes".to_vec());
    assert_eq!(
        conditions,
        vec![(b"eye_color".to_vec(), b"Pink Eyes".to_vec())]
    );
}

#[test]
fn it_parses_comma_separated_string() {
    let input = b"foo,bar,baz";
    let (pos, parsed) = select_cols(input, 0).unwrap();
    assert_eq!(&input[pos..], b"");
    assert_eq!(parsed, owned(&[b"foo", b"bar", b"baz"]));

    let input = b" foo ,\nbar\n, baz ";
    let (pos, parsed) = select_cols(input, 0).unwrap();
    assert_eq!(&input[pos..], b"");
    assert_eq!(parsed, owned(&[b"foo", b"bar", b"baz"]));

    let input = b" foo ";
    let (pos, parsed) = select_cols(input, 0).unwrap();
    assert_eq!(&input[pos..], b"");
    assert_eq!(parsed, owned(&[b"foo"]));

    let input = b"*";
    let (pos, parsed) = select_cols(input, 0).unwrap();
    assert_eq!(&input[pos..], b"");
    assert_eq!(parsed, owned(&[b"*"]));
}

#[test]
fn it_trims_string() {
    let input = b"\n foo\t\r";
    let (pos, parsed) = select_cols(input, 0).unwrap();
    assert_eq!(&input[pos..], b"");
    assert_eq!(parsed, owned(&[b"foo"]));

    let input = b"foo   ";
    let (pos, parsed) = select_cols(input, 0).unwrap();
    assert_eq!(&input[pos..], b"");
    assert_eq!(parsed, owned(&[b"foo"]));

    let input = b" \nfoo?";
    let (pos, parsed) = select_cols(input, 0).unwrap();
    assert_eq!(&input[pos..], b"?");
    assert_eq!(parsed, owned(&[b"foo"]));
}

#[test]
fn it_parses_identifiers() {
    let input = b"foobar baz";
    let end = scan_word_or_fn(input, 0);
    assert_eq!(&input[..end], b"foobar");
    assert_eq!(&input[end..], b" baz");

    let input = b"* baz";
    let end = scan_word_or_fn(input, 0);
    assert_eq!(&input[..end], b"*");
    assert_eq!(&input[end..], b" baz");

    let input = b"foo* baz";
    let end = scan_word_or_fn(input, 0);
    assert_eq!(&input[..end], b"foo*");
    assert_eq!(&input[end..], b" baz");

    let input = b"foo_bar baz";
    let end = scan_word_or_fn(input, 0);
    assert_eq!(&input[..end], b"foo_bar");
    assert_eq!(&input[end..], b" baz");

    let input = b"foo_bar";
    let end = scan_word_or_fn(input, 0);
    assert_eq!(&input[..end], b"foo_bar");
    assert_eq!(&input[end..], b"");
}

#[test]
fn it_parses_double_quoted_string() {
    let input = b"\"foo\"";
    let (pos, parsed) = quoted(input, 0, b'"').unwrap();
    assert_eq!(&input[pos..], b"");
    assert_eq!(parsed, b"foo".to_vec());

    let input = b" \"foo\" ";
    let (pos, parsed) = quoted(input, 0, b'"').unwrap();
    assert_eq!(&input[pos..], b"");
    assert_eq!(parsed, b"foo".to_vec());

    let input = b"\"foo bar\"";
    let (pos, parsed) = quoted(input, 0, b'"').unwrap();
    assert_eq!(&input[pos..], b"");
    assert_eq!(parsed, b"foo bar".to_vec());
}

#[test]
fn it_parses_single_quoted_string() {
    let input = b"'foo'";
    let (pos, parsed) = quoted(input, 0, b'\'').unwrap();
    assert_eq!(&input[pos..], b"");
    assert_eq!(parsed, b"foo".to_vec());

    let input = b" 'foo' ";
    let (pos, parsed) = quoted(input, 0, b'\'').unwrap();
    assert_eq!(&input[pos..], b"");
    assert_eq!(parsed, b"foo".to_vec());

    let input = b"'foo bar'";
    let (pos, parsed) = quoted(input, 0, b'\'').unwrap();
    assert_eq!(&input[pos..], b"");
    assert_eq!(parsed, b"foo bar".to_vec());
}

#[test]
fn it_parses_any_keyword() {
    let input = b" select\n  count(*)   \nfrom";
    let pos = keyword(input, 0, b"select").unwrap();
    assert_eq!(&input[pos..], b"count(*)   \nfrom");

    let input = b"SELECT\n  COUNT(*)   \nFROM";
    let pos = keyword(input, 0, b"select").unwrap();
    assert_eq!(&input[pos..], b"COUNT(*)   \nFROM");

    let input = b"selectx from";
    assert_eq!(keyword(input, 0, b"select"), Err(Error::ParseError));
}

#[test]
fn it_creates_table_column_from_string() {
    let def = b"name text";
    let col = TableColumn::new(def).unwrap();
    assert_eq!(
        col,
        TableColumn {
            ctype: b"text".to_vec(),
            name: b"name".to_vec(),
            primary_key: false,
        }
    );

    let def = b"id integer primary key autoincrement";
    let col = TableColumn::new(def).unwrap();
    assert_eq!(
        col,
        TableColumn {
            ctype: b"integer".to_vec(),
            name: b"id".to_vec(),
            primary_key: true,
        }
    );
    assert!(col.is_rowid());

    let def = b"\"size range\" text";
    let col = TableColumn::new(def).unwrap();
    assert_eq!(
        col,
        TableColumn {
            ctype: b"text".to_vec(),
            name: b"size range".to_vec(),
            primary_key: false,
        }
    );
}
