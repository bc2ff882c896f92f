use salary_analysis::ingest::{collect_records, read_dataset, read_rows, MAX_ROWS};
use salary_analysis::record::{
    family_influence_code, family_influence_label, parse_row, ColumnLayout, Individual,
    RowFailure,
};
use salary_analysis::numeral::{
    below_digits, capped_value, digit, is_decimal_chars, is_decimal_text, is_numeral_chars,
    rounds_finite_chars, scan_digits, scan_zeros, EXPONENT_CAP, OVERFLOW_SCALE,
};
use salary_analysis::text::{to_chars, trim_bounds, trimmed, white_space};

fn narrow_layout() -> ColumnLayout {
    ColumnLayout {
        age: 0,
        years_of_experience: 1,
        job_satisfaction: 2,
        professional_network_size: 3,
        family_influence: 4,
        salary: 5,
        likelihood_to_change_occupation: 6,
        width: 7,
    }
}

fn number(text: &str) -> f64 {
    text.parse::<f64>().unwrap()
}

fn row(cells: &[&str]) -> Vec<String> {
    cells.iter().map(|c| c.to_string()).collect()
}

#[test]
fn test_family_influence_parsing() {
    let test_cases = vec![("None", 0.0), ("Low", 1.0), ("Medium", 2.0), ("High", 3.0)];

    for (input, expected) in test_cases {
        let result = match family_influence_code(input) {
            Some(code) => f64::from(code),
            None => f64::NAN,
        };
        assert_eq!(result, expected);
    }
}

#[test]
fn family_influence_rejects_other_text() {
    for input in ["", "none", "LOW", "Mediums", "Hig", "Very High", " Low", "Low ", "0", "Nonе"] {
        assert_eq!(family_influence_code(input), None, "{:?}", input);
    }
}

#[test]
fn test_individual_creation() {
    let individual = Individual {
        id: 1,
        age: "30.0".to_string(),
        years_of_experience: "5.0".to_string(),
        job_satisfaction: "4.5".to_string(),
        professional_network_size: "100.0".to_string(),
        family_influence: 2,
        salary: "75000.0".to_string(),
        likelihood_to_change_occupation: "0.3".to_string(),
    };

    assert_eq!(individual.id, 1);
    assert_eq!(number(&individual.age), 30.0);
    assert_eq!(f64::from(individual.family_influence), 2.0);
    assert!(individual.is_well_formed());
    let copy = individual.clone();
    assert_eq!(copy.id, 1);
    assert_eq!(copy.salary, "75000.0");
    assert_eq!(copy.professional_network_size, "100.0");
}

#[test]
fn individual_with_bad_parts_is_not_well_formed() {
    let good = Individual {
        id: 0,
        age: "1".to_string(),
        years_of_experience: "2".to_string(),
        job_satisfaction: "3".to_string(),
        professional_network_size: "4".to_string(),
        family_influence: 3,
        salary: "5".to_string(),
        likelihood_to_change_occupation: "6".to_string(),
    };
    assert!(good.is_well_formed());
    let mut bad = good.clone();
    bad.family_influence = 4;
    assert!(!bad.is_well_formed());
    let mut bad = good.clone();
    bad.salary = "5 ".to_string();
    assert!(!bad.is_well_formed());
    let mut bad = good.clone();
    bad.age = String::new();
    assert!(!bad.is_well_formed());
}

#[test]
fn test_read_small_dataset() {
    let csv_data =
"Age,Experience,Job Satisfaction,Network Size,Family Influence,Salary,Likelihood to Change
30,5,4.5,100,Medium,75000,0.3
35,10,4.8,200,High,85000,0.2
25,2,3.9,50,Low,60000,0.5";

    let dataset = read_dataset(csv_data.as_bytes(), &narrow_layout()).unwrap();
    let individuals = dataset.records;

    assert_eq!(individuals.len(), 3, "Should parse 3 records");
    assert_eq!(number(&individuals[0].age), 30.0);
    assert_eq!(number(&individuals[1].salary), 85000.0);
    assert_eq!(f64::from(individuals[2].family_influence), 1.0);

    assert_eq!(dataset.short_rows, 0);
    assert_eq!(dataset.invalid_rows, 0);
    assert_eq!(individuals[0].id, 0);
    assert_eq!(individuals[1].id, 1);
    assert_eq!(individuals[2].id, 2);
    assert_eq!(individuals[0].years_of_experience, "5");
    assert_eq!(individuals[0].job_satisfaction, "4.5");
    assert_eq!(individuals[0].professional_network_size, "100");
    assert_eq!(individuals[0].family_influence, 2);
    assert_eq!(individuals[0].likelihood_to_change_occupation, "0.3");
    assert_eq!(individuals[1].family_influence, 3);
    assert_eq!(individuals[2].salary, "60000");
}

#[test]
fn header_row_is_no_record() {
    let dataset = read_dataset(b"a,b,c,d,e,f,g\n", &narrow_layout()).unwrap();
    assert!(dataset.records.is_empty());
    assert_eq!(dataset.parse_errors(), 0);
    let dataset = read_dataset(b"", &narrow_layout()).unwrap();
    assert!(dataset.records.is_empty());
}

#[test]
fn quoted_cells_and_white_space_are_read() {
    let data = "a,b,c,d,e,f,g\n\" 41 \",\t7,3.5 ,\"1,5\", High ,\"90000\",0.1\n";
    let dataset = read_dataset(data.as_bytes(), &narrow_layout()).unwrap();
    assert_eq!(dataset.records.len(), 0);
    assert_eq!(dataset.invalid_rows, 1);
    let data = "a,b,c,d,e,f,g\n\" 41 \",\t7,3.5 ,\"15\", High ,\"90000\",\u{a0}0.1\u{3000}\n";
    let dataset = read_dataset(data.as_bytes(), &narrow_layout()).unwrap();
    assert_eq!(dataset.records.len(), 1);
    let one = &dataset.records[0];
    assert_eq!(one.age, "41");
    assert_eq!(one.years_of_experience, "7");
    assert_eq!(one.job_satisfaction, "3.5");
    assert_eq!(one.professional_network_size, "15");
    assert_eq!(one.family_influence, 3);
    assert_eq!(one.salary, "90000");
    assert_eq!(one.likelihood_to_change_occupation, "0.1");
}

#[test]
fn rows_are_dropped_whole_and_counted() {
    let data = "a,b,c,d,e,f,g
30,5,4.5,100,Medium,75000,0.3
30,5,4.5,100,Unknown,75000,0.3
x,5,4.5,100,Low,75000,0.3
31,5,4.5,100,None,,0.3
32,6,4.5,100,None,1e3,-0.25
33,6,4.5,100,None,1e3,nan
";
    let dataset = read_dataset(data.as_bytes(), &narrow_layout()).unwrap();
    assert_eq!(dataset.records.len(), 2);
    assert_eq!(dataset.records[0].id, 0);
    assert_eq!(dataset.records[1].id, 4);
    assert_eq!(dataset.records[1].family_influence, 0);
    assert_eq!(number(&dataset.records[1].salary), 1000.0);
    assert_eq!(number(&dataset.records[1].likelihood_to_change_occupation), -0.25);
    assert_eq!(dataset.invalid_rows, 4);
    assert_eq!(dataset.short_rows, 0);
    assert_eq!(dataset.parse_errors(), 4);
}

#[test]
fn short_rows_are_counted_apart() {
    let data = "a,b,c\n1,2,3\n4,5,6\n";
    let dataset = read_dataset(data.as_bytes(), &narrow_layout()).unwrap();
    assert!(dataset.records.is_empty());
    assert_eq!(dataset.short_rows, 2);
    assert_eq!(dataset.invalid_rows, 0);
    assert_eq!(dataset.parse_errors(), 2);
}

#[test]
fn a_narrow_row_is_dropped_and_the_rest_is_read() {
    let data = "a,b,c,d,e,f,g
30,5,4.5,100,Medium,75000,0.3
30,5,4.5
35,10,4.8,200,High,85000,0.2,more,and more
36,10,4.8,200,High,86000,0.2
";
    let dataset = read_dataset(data.as_bytes(), &narrow_layout()).unwrap();
    assert_eq!(dataset.short_rows, 1);
    assert_eq!(dataset.invalid_rows, 0);
    assert_eq!(dataset.records.len(), 3);
    assert_eq!(dataset.records[0].id, 0);
    assert_eq!(dataset.records[1].id, 2);
    assert_eq!(dataset.records[1].salary, "85000");
    assert_eq!(dataset.records[2].id, 3);
}

#[test]
fn a_short_row_of_the_wide_table_is_counted() {
    let header: Vec<String> = (0..23).map(|i| format!("h{}", i)).collect();
    let mut cells: Vec<String> = (0..23).map(|i| format!("c{}", i)).collect();
    cells[2] = "44".to_string();
    cells[4] = "20".to_string();
    cells[7] = "7".to_string();
    cells[19] = "350".to_string();
    cells[14] = "Low".to_string();
    cells[10] = "120000".to_string();
    cells[22] = "0".to_string();
    let data = format!("{}\n1,2,3\n{}\n", header.join(","), cells.join(","));
    let dataset = read_dataset(data.as_bytes(), &ColumnLayout::standard()).unwrap();
    assert_eq!(dataset.records.len(), 1);
    assert_eq!(dataset.records[0].id, 1);
    assert_eq!(dataset.short_rows, 1);
    assert_eq!(dataset.parse_errors(), 1);
}

#[test]
fn bytes_that_are_no_text_refuse_the_table() {
    let mut data = b"a,b,c,d,e,f,g\n30,5,4.5,100,Medium,75000,0.3\n".to_vec();
    data.extend_from_slice(b"30,5,\xff\xfe,100,Medium,75000,0.3\n");
    let error = read_dataset(&data, &narrow_layout()).unwrap_err();
    assert_eq!(error.row, 1);
}

#[test]
fn standard_layout_reads_the_wide_table() {
    let layout = ColumnLayout::standard();
    assert!(layout.is_well_formed());
    assert_eq!(layout.width, 23);
    assert_eq!(
        (layout.age, layout.years_of_experience, layout.job_satisfaction),
        (2, 4, 7)
    );
    assert_eq!(
        (
            layout.salary,
            layout.family_influence,
            layout.professional_network_size,
            layout.likelihood_to_change_occupation
        ),
        (10, 14, 19, 22)
    );
    let mut cells: Vec<String> = (0..23).map(|i| format!("c{}", i)).collect();
    cells[2] = "44".to_string();
    cells[4] = "20".to_string();
    cells[7] = "7".to_string();
    cells[19] = "350".to_string();
    cells[14] = "Low".to_string();
    cells[10] = "120000".to_string();
    cells[22] = "0".to_string();
    let one = parse_row(&cells, 9, &layout).unwrap();
    assert_eq!(one.id, 9);
    assert_eq!(one.age, "44");
    assert_eq!(one.years_of_experience, "20");
    assert_eq!(one.job_satisfaction, "7");
    assert_eq!(one.professional_network_size, "350");
    assert_eq!(one.family_influence, 1);
    assert_eq!(one.salary, "120000");
    assert_eq!(one.likelihood_to_change_occupation, "0");
    cells.pop();
    assert_eq!(parse_row(&cells, 9, &layout).unwrap_err(), RowFailure::Short);
}

#[test]
fn layout_with_a_column_beyond_its_width_is_not_well_formed() {
    let mut layout = narrow_layout();
    assert!(layout.is_well_formed());
    layout.salary = 7;
    assert!(!layout.is_well_formed());
}

#[test]
fn parse_row_gives_each_failure() {
    let layout = narrow_layout();
    let good = row(&["30", "5", "4.5", "100", "Medium", "75000", "0.3"]);
    assert!(parse_row(&good, 0, &layout).is_ok());
    let short = row(&["30", "5", "4.5", "100", "Medium", "75000"]);
    assert_eq!(parse_row(&short, 0, &layout).unwrap_err(), RowFailure::Short);
    let label = row(&["30", "5", "4.5", "100", "medium", "75000", "0.3"]);
    assert_eq!(parse_row(&label, 0, &layout).unwrap_err(), RowFailure::Invalid);
    for at in [0usize, 1, 2, 3, 5, 6] {
        let mut cells = good.clone();
        cells[at] = "12a".to_string();
        assert_eq!(parse_row(&cells, 0, &layout).unwrap_err(), RowFailure::Invalid);
    }
    let wide = row(&["30", "5", "4.5", "100", "Medium", "75000", "0.3", "more"]);
    assert!(parse_row(&wide, 0, &layout).is_ok());
}

#[test]
fn rows_beyond_the_limit_are_not_looked_at() {
    let rows: Vec<Result<Vec<String>, String>> = vec![
        Ok(row(&["30", "5", "4.5", "100", "Medium", "75000", "0.3"])),
        Ok(row(&["31", "5", "4.5", "100", "Medium", "75000", "0.3"])),
        Err("broken".to_string()),
        Ok(row(&["32", "5", "4.5", "100", "Medium", "75000", "0.3"])),
    ];
    let layout = narrow_layout();
    let two = collect_records(&rows, &layout, 2).unwrap();
    assert_eq!(two.records.len(), 2);
    assert_eq!(two.records[1].age, "31");
    let none = collect_records(&rows, &layout, 0).unwrap();
    assert!(none.records.is_empty());
    let error = collect_records(&rows, &layout, 3).unwrap_err();
    assert_eq!(error.row, 2);
    assert_eq!(error.message, "broken");
    let error = collect_records(&rows, &layout, MAX_ROWS).unwrap_err();
    assert_eq!(error.row, 2);
    assert_eq!(MAX_ROWS, 20000);
}

#[test]
fn the_table_is_cut_at_the_row_limit() {
    let mut data = String::from("a,b,c,d,e,f,g\n");
    for i in 0..(MAX_ROWS + 5) {
        data.push_str(&format!("{},5,4.5,100,Medium,75000,0.3\n", i));
    }
    let dataset = read_dataset(data.as_bytes(), &narrow_layout()).unwrap();
    assert_eq!(dataset.records.len(), MAX_ROWS);
    assert_eq!(dataset.records[MAX_ROWS - 1].age, "19999");
    assert_eq!(dataset.records[MAX_ROWS - 1].id, MAX_ROWS - 1);
}

#[test]
fn decimal_numbers_are_told_apart() {
    for text in [
        "0", "30", "4.5", ".5", "5.", "+5", "-5", "-.5e-3", "1e5", "1E5", "1e+5", "007",
        "75000.0", "1.25E-10", "+0.0e0",
    ] {
        assert!(is_decimal_text(text), "{:?}", text);
        assert!(text.parse::<f64>().is_ok(), "{:?}", text);
    }
    for text in [
        "", ".", "+", "-", "e5", ".e5", "1e", "1e+", "1e5.0", "1.2.3", "--1", "1 ", " 1", "1,5",
        "0x10", "1_000", "abc", "1e5e5", "+-1", "inf", "nan", "infinity", "NaN", "-inf", "１２",
    ] {
        assert!(!is_decimal_text(text), "{:?}", text);
    }
}

#[test]
fn characters_are_handed_out_in_order() {
    assert_eq!(to_chars("a\u{e9}z"), vec!['a', '\u{e9}', 'z']);
    assert!(to_chars("").is_empty());
}

#[test]
fn white_space_is_that_of_the_characters() {
    let mut c = '\0';
    loop {
        assert_eq!(white_space(c), c.is_whitespace(), "{:?}", c);
        assert_eq!(digit(c), c.is_ascii_digit(), "{:?}", c);
        if c == char::MAX {
            break;
        }
        c = char::from_u32(c as u32 + 1).unwrap_or('\u{e000}');
    }
}

#[test]
fn trimming_removes_white_space_at_both_ends() {
    for text in [
        "",
        " ",
        " \t\r\n ",
        "a",
        " a",
        "a ",
        "  Medium  ",
        "\t75000\n",
        " a b ",
        "\u{a0}0.1\u{3000}",
        "\u{2003}High\u{85}",
        "\u{200b}x\u{200b}",
        "\u{feff}30",
        " \u{e9}t\u{e9} ",
        "no space",
    ] {
        assert_eq!(trimmed(text), text.trim(), "{:?}", text);
    }
    assert_eq!(trim_bounds(&to_chars("  ab c ")), (2, 6));
    let blank = trim_bounds(&to_chars("   "));
    assert_eq!(blank.0, blank.1);
    assert_eq!(trim_bounds(&to_chars("")), (0, 0));
}

#[test]
fn runs_of_digits_are_scanned() {
    let chars = to_chars("12.345e6");
    assert_eq!(scan_digits(&chars, 0), 2);
    assert_eq!(scan_digits(&chars, 2), 2);
    assert_eq!(scan_digits(&chars, 3), 6);
    assert_eq!(scan_digits(&chars, 7), 8);
    assert_eq!(scan_digits(&chars, 8), 8);
    assert!(is_decimal_chars(&chars));
    assert!(!is_decimal_chars(&to_chars("12.345e")));
}

#[test]
fn labels_decode_to_their_codes() {
    assert_eq!(family_influence_label(0), "None");
    assert_eq!(family_influence_label(1), "Low");
    assert_eq!(family_influence_label(2), "Medium");
    assert_eq!(family_influence_label(3), "High");
    for code in 0..4u8 {
        assert_eq!(family_influence_code(family_influence_label(code)), Some(code));
    }
}

const OVERFLOW: &str = "179769313486231580793728971405303415079934132710037826936173778980444968292764750946649017977587207096330286416692887910946555547851940402630657488671505820681908902000708383676273854845817711531764475730270069855571366959622842914819860834936475292719074168444365510704342711559699508093042880177904174497792";

fn finite_by_the_double(text: &str) -> bool {
    text.parse::<f64>().unwrap().is_finite()
}

#[test]
fn numerals_beyond_the_doubles_are_no_decimal_numbers() {
    for text in ["1e999", "-1e999", "1e309", "1.8e308", "18e307", "0.18e309", "+1E400"] {
        assert!(is_numeral_chars(&to_chars(text)), "{:?}", text);
        assert!(!is_decimal_text(text), "{:?}", text);
        assert!(!finite_by_the_double(text), "{:?}", text);
    }
    assert!(is_decimal_text("1e308"));
    assert!(is_decimal_text("1.7e308"));
}

#[test]
fn a_row_with_a_numeral_beyond_the_doubles_is_dropped() {
    let data = "a,b,c,d,e,f,g\n30,5,4.5,100,Medium,1e999,0.3\n31,5,4.5,100,Medium,1e308,0.3\n";
    let dataset = read_dataset(data.as_bytes(), &narrow_layout()).unwrap();
    assert_eq!(dataset.invalid_rows, 1);
    assert_eq!(dataset.records.len(), 1);
    assert_eq!(dataset.records[0].id, 1);
    for one in &dataset.records {
        for text in [
            &one.age,
            &one.years_of_experience,
            &one.job_satisfaction,
            &one.professional_network_size,
            &one.salary,
            &one.likelihood_to_change_occupation,
        ] {
            assert!(finite_by_the_double(text));
        }
    }
}

#[test]
fn finite_numerals_are_those_with_a_finite_double() {
    assert_eq!(OVERFLOW.len(), OVERFLOW_SCALE);
    let mut below: Vec<u8> = OVERFLOW.as_bytes().to_vec();
    let last = below.len() - 1;
    below[last] -= 1;
    let below = String::from_utf8(below).unwrap();
    let mut cases: Vec<String> = vec![
        OVERFLOW.to_string(),
        below.clone(),
        format!("{}.0", OVERFLOW),
        format!("{}.5", below),
        format!("{}0e-1", OVERFLOW),
        format!("{}9e-1", below),
        format!("000{}", below),
        format!("000{}", OVERFLOW),
        format!("0.{}e309", OVERFLOW),
        format!("0.{}e309", below),
        format!("0.000{}e312", below),
        format!("0.000{}e+312", OVERFLOW),
        format!("{}000e-3", below),
        format!("{}0001e-4", OVERFLOW),
        format!("-{}", OVERFLOW),
        format!("-{}", below),
        format!("{}e0", &OVERFLOW[..17]),
        format!("1.{}e308", &OVERFLOW[1..17]),
        format!("1.{}e308", &OVERFLOW[1..300]),
        format!("1.{}9e308", &OVERFLOW[1..17]),
    ];
    for text in [
        "0", "-0", "0.0", "0e999", "0.000e99999999999999999999999999999999999999", ".0e5",
        "1", "1e308", "1e309", "9.99e307", "9.99e308", "1.7976931348623157e308",
        "1.7976931348623158e308", "1.7976931348623159e308", "1.797693134862315807e308",
        "1.797693134862315808e308", "17976931348623158e292", "17976931348623159e292",
        "0.00017976931348623158e312", "0.00017976931348623159e312", "2e308", "1e-999",
        "1e-99999999999999999999999999999999999999", "1e99999999999999999999999999999999999999",
        "1e0000000000000000000000000000000000000000000308", "1e+0309", "5e-324", "1e-400",
        "123456789012345678901234567890e279", "123456789012345678901234567890e278",
        "1797693134862315.8e293", "1797693134862315.9e293", "00001.8e308", "00001.7e308",
        "0.1e310", "0.1e309", "0.01e311", "10e307", "10e308", "100000e-5", "1e18446744073709551616",
        "1e-18446744073709551616", "75000", "4.5", "-0.25", "1e3",
    ] {
        cases.push(text.to_string());
    }
    for text in &cases {
        let chars = to_chars(text);
        assert!(is_numeral_chars(&chars), "{:?}", text);
        assert_eq!(rounds_finite_chars(&chars), finite_by_the_double(text), "{:?}", text);
        assert_eq!(is_decimal_text(text), finite_by_the_double(text), "{:?}", text);
    }
}

#[test]
fn parts_of_the_finite_rule() {
    assert_eq!(scan_zeros(&to_chars("000120"), 0), 3);
    assert_eq!(scan_zeros(&to_chars("000120"), 3), 3);
    assert_eq!(scan_zeros(&to_chars("000"), 1), 3);
    assert_eq!(capped_value(&to_chars("e+0308"), 2, 6), 308);
    assert_eq!(capped_value(&to_chars("12"), 0, 0), 0);
    assert_eq!(capped_value(&to_chars("999999999999999999999999999999"), 0, 30), EXPONENT_CAP - 1);
    assert_eq!(capped_value(&to_chars("1000000000000000000000000000000"), 0, 31), EXPONENT_CAP);
    assert_eq!(capped_value(&to_chars("98765432109876543210987654321098765"), 0, 35), EXPONENT_CAP);
    let bound = to_chars("1797");
    assert!(below_digits(&to_chars("1796"), 0, &bound));
    assert!(below_digits(&to_chars("17969"), 0, &bound));
    assert!(below_digits(&to_chars("179"), 0, &bound));
    assert!(below_digits(&to_chars("0"), 0, &bound));
    assert!(below_digits(&to_chars("00179"), 2, &bound));
    assert!(!below_digits(&to_chars("1797"), 0, &bound));
    assert!(!below_digits(&to_chars("17970"), 0, &bound));
    assert!(!below_digits(&to_chars("1798"), 0, &bound));
    assert!(!below_digits(&to_chars("2"), 0, &bound));
    assert!(below_digits(&to_chars(""), 0, &bound));
    assert!(!below_digits(&to_chars("1"), 0, &to_chars("")));
}

#[test]
fn rows_are_read_up_to_the_limit() {
    let data = b"h1,h2\n1,2\n3\n4,5,6\n\xff,7\n8,9\n";
    let all = read_rows(data, 100);
    assert_eq!(all.len(), 5);
    assert_eq!(all[0], Ok(vec!["1".to_string(), "2".to_string()]));
    assert_eq!(all[1], Ok(vec!["3".to_string()]));
    assert_eq!(all[2], Ok(vec!["4".to_string(), "5".to_string(), "6".to_string()]));
    assert!(all[3].is_err());
    assert_eq!(all[4], Ok(vec!["8".to_string(), "9".to_string()]));
    let three = read_rows(data, 3);
    assert_eq!(three.len(), 3);
    assert_eq!(three[..], all[..3]);
    assert_eq!(read_rows(data, 5).len(), 5);
    assert!(read_rows(data, 0).is_empty());
    assert!(read_rows(b"h1,h2\n", 10).is_empty());
    assert!(read_rows(b"", 10).is_empty());
}

#[test]
fn what_follows_the_limit_cannot_refuse_the_table() {
    let mut data = String::from("a,b,c,d,e,f,g\n").into_bytes();
    for i in 0..MAX_ROWS {
        data.extend_from_slice(format!("{},5,4.5,100,Medium,75000,0.3\n", i).as_bytes());
    }
    data.extend_from_slice(b"30,5,\xff\xfe,100,Medium,75000,0.3\n");
    let dataset = read_dataset(&data, &narrow_layout()).unwrap();
    assert_eq!(dataset.records.len(), MAX_ROWS);
    assert_eq!(dataset.parse_errors(), 0);
}
