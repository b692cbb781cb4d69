use goback::color::{dim, green};
use goback::table::{Cell, Table};

#[test]
fn test_simple_table() {
    let mut table = Table::new(vec!["#", "Name"]);
    table.add_row(vec![Cell::new("1"), Cell::new("Alice")]);
    table.add_row(vec![Cell::new("2"), Cell::new("Bob")]);

    let output = table.render();
    assert!(output.contains("Alice"));
    assert!(output.contains("Bob"));
}

#[test]
fn test_column_width_calculation() {
    let mut table = Table::new(vec!["#", "Branch"]);
    table.add_row(vec![
        Cell::new("0"),
        Cell::new("feature/very-long-branch-name"),
    ]);

    let output = table.render();
    assert!(output.contains("feature/very-long-branch-name"));
}

fn rule(left: &str, mid: &str, right: &str, fill: &str, widths: &[usize]) -> String {
    let mut s = dim(left);
    for (i, w) in widths.iter().enumerate() {
        if i > 0 {
            s.push_str(&dim(mid));
        }
        s.push_str(&dim(&fill.repeat(w + 2)));
    }
    s.push_str(&dim(right));
    s.push('\n');
    s
}

#[test]
fn render_exact_text_of_one_row() {
    let mut table = Table::new(vec!["A"]);
    table.add_row(vec![Cell::new("xy")]);
    let out = table.render();
    let bar = dim("│");
    let expected = format!(
        "{}{} {}  {}\n{}{} xy {}\n{}",
        rule("╭", "┬", "╮", "─", &[2]),
        bar,
        green("A"),
        bar,
        rule("├", "┼", "┤", "─", &[2]),
        bar,
        bar,
        rule("╰", "┴", "╯", "─", &[2]),
    );
    assert_eq!(out, expected);
}

#[test]
fn padding_goes_by_declared_width() {
    let mut table = Table::new(vec!["Col"]);
    table.add_row(vec![Cell::colored(green("ab"), 2)]);
    let out = table.render();
    let lines: Vec<&str> = out.lines().collect();
    let expected_row = format!("{} {}  {}", dim("│"), green("ab"), dim("│"));
    assert_eq!(lines[3], expected_row);
    assert_eq!(lines[0], rule("╭", "┬", "╮", "─", &[3]).trim_end_matches('\n'));
}

#[test]
fn short_rows_leave_blank_cells() {
    let mut table = Table::new(vec!["a", "bb"]);
    table.add_row(vec![Cell::new("x")]);
    let out = table.render();
    let lines: Vec<&str> = out.lines().collect();
    let expected_row = format!("{} x {}    {}", dim("│"), dim("│"), dim("│"));
    assert_eq!(lines[3], expected_row);
}

#[test]
fn empty_table_has_header_and_borders_only() {
    let table = Table::new(vec!["Name"]);
    let out = table.render();
    assert_eq!(out.lines().count(), 4);
    assert_eq!(out.lines().last().unwrap(), rule("╰", "┴", "╯", "─", &[4]).trim_end_matches('\n'));
}

#[test]
fn line_structure_with_three_rows() {
    let mut table = Table::new(vec!["#", "Name"]);
    table.add_row(vec![Cell::new("1"), Cell::new("Alice")]);
    table.add_row(vec![Cell::new("2"), Cell::new("Bob")]);
    table.add_row(vec![Cell::new("3"), Cell::new("Carol")]);
    let out = table.render();
    let lines: Vec<&str> = out.lines().collect();
    let widths = [1, 5];
    let top = rule("╭", "┬", "╮", "─", &widths);
    let sep = rule("├", "┼", "┤", "─", &widths);
    let dotted = rule("├", "┼", "┤", "╌", &widths);
    let bottom = rule("╰", "┴", "╯", "─", &widths);
    assert_eq!(lines.len(), 2 * 3 + 3);
    assert_eq!(lines.iter().filter(|l| **l == top.trim_end()).count(), 1);
    assert_eq!(lines.iter().filter(|l| **l == sep.trim_end()).count(), 1);
    assert_eq!(lines.iter().filter(|l| **l == dotted.trim_end()).count(), 2);
    assert_eq!(lines.iter().filter(|l| **l == bottom.trim_end()).count(), 1);
    assert_eq!(lines.iter().filter(|l| l.starts_with(&dim("│"))).count(), 4);
}

#[test]
fn narrower_row_keeps_earlier_lines() {
    let mut table = Table::new(vec!["#", "Branch"]);
    table.add_row(vec![Cell::new("0"), Cell::new("feature/long")]);
    let before = table.render();
    table.add_row(vec![Cell::new("1"), Cell::new("main")]);
    let after = table.render();
    assert_eq!(after, table.render());
    let before_lines: Vec<&str> = before.lines().collect();
    let after_lines: Vec<&str> = after.lines().collect();
    assert_eq!(&after_lines[..before_lines.len() - 1], &before_lines[..before_lines.len() - 1]);
    assert_eq!(after_lines.last(), before_lines.last());
}

#[test]
fn cell_new_takes_text_length() {
    let c = Cell::new("feature/x");
    assert_eq!(c.text, "feature/x");
    assert_eq!(c.width, 9);
    let d = Cell::colored(green("ok"), 2);
    assert_eq!(d.width, 2);
    assert_eq!(d.text, green("ok"));
}
