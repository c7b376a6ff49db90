use alglobo::csv::{csv_to_prices, parse_below, parse_number, parse_record, write_to_csv};
use alglobo::logger::{LogLevel, Logger};
use alglobo::utils::{
    agent_get_name, agent_get_port, blocks_within, get_agents, get_agents_ports, is_whitespace,
    parse_kill_line, plain_bytes, ports_of_agents, trimmed_end, trimmed_start, ConfigError,
    MAX_BLOCK_COLUMN,
};

#[test]
fn prices_are_read_line_by_line() {
    assert_eq!(csv_to_prices(b"100,200,300"), Some(vec![vec![100, 200, 300]]));
    assert_eq!(
        csv_to_prices(b"10,20,30\n40,50,60"),
        Some(vec![vec![10, 20, 30], vec![40, 50, 60]])
    );
    assert_eq!(
        csv_to_prices(b"10,20,30\n40,50,60\n"),
        Some(vec![vec![10, 20, 30], vec![40, 50, 60]])
    );
    assert_eq!(csv_to_prices(b"1\r\n2\r\n"), Some(vec![vec![1], vec![2]]));
    assert_eq!(csv_to_prices(b""), Some(vec![]));
    assert_eq!(csv_to_prices(b"+7,007"), Some(vec![vec![7, 7]]));
    assert_eq!(csv_to_prices(b"4294967295,0"), Some(vec![vec![u32::MAX, 0]]));
}

#[test]
fn prices_that_are_no_numbers_are_refused() {
    assert_eq!(csv_to_prices(b"\n"), None);
    assert_eq!(csv_to_prices(b"1,2\n\n3,4"), None);
    assert_eq!(csv_to_prices(b"1,,2"), None);
    assert_eq!(csv_to_prices(b"1,2,"), None);
    assert_eq!(csv_to_prices(b"1, 2"), None);
    assert_eq!(csv_to_prices(b"-1"), None);
    assert_eq!(csv_to_prices(b"+"), None);
    assert_eq!(csv_to_prices(b"4294967296"), None);
    assert_eq!(csv_to_prices(b"99999999999999999999999"), None);
    assert_eq!(csv_to_prices(b"1\r"), None);
    assert_eq!(csv_to_prices(b"1\r\r\n"), None);
    assert_eq!(csv_to_prices(b"a,b"), None);
    assert_eq!(csv_to_prices("1,\u{fc}".as_bytes()), None);
}

#[test]
fn prices_agree_with_the_standard_library() {
    let text = "3,14,159\n+2,65\r\n0,00,000\n42";
    let expected: Vec<Vec<u32>> = text
        .lines()
        .map(|line| line.split(',').map(|x| x.parse::<u32>().unwrap()).collect())
        .collect();
    assert_eq!(csv_to_prices(text.as_bytes()), Some(expected));
}

#[test]
fn numbers_and_records_are_read_from_a_range() {
    let buf = b"xx12,+34,5yy";
    assert_eq!(parse_number(buf, 2, 4), Some(12));
    assert_eq!(parse_number(buf, 5, 8), Some(34));
    assert_eq!(parse_number(buf, 2, 2), None);
    assert_eq!(parse_number(buf, 0, 4), None);
    assert_eq!(parse_record(buf, 2, 10), Some(vec![12, 34, 5]));
    assert_eq!(parse_record(buf, 2, 11), None);
    assert_eq!(parse_record(buf, 4, 4), None);
}

#[test]
fn retry_lines_are_written_like_the_input() {
    assert_eq!(write_to_csv(&[10, 20, 30]), b"10,20,30\n".to_vec());
    assert_eq!(write_to_csv(&[0]), b"0\n".to_vec());
    assert_eq!(write_to_csv(&[u32::MAX, 1000, 7]), b"4294967295,1000,7\n".to_vec());
    assert_eq!(write_to_csv(&[]), b"\n".to_vec());
}

#[test]
fn written_lines_are_read_back() {
    let records = vec![vec![10u32, 20, 30], vec![0], vec![4_000_000_000, 9]];
    let mut text = Vec::new();
    for record in &records {
        text.extend(write_to_csv(record));
    }
    assert_eq!(csv_to_prices(&text), Some(records));
}

#[test]
fn logger_names_its_file() {
    let logger = Logger::new("node-3".to_string());
    assert_eq!(logger.name, "node-3");
    assert_eq!(logger.filename, "logs/node-3.log");
    let copy = logger.clone();
    assert_eq!(copy.name, "node-3");
    assert_eq!(copy.filename, "logs/node-3.log");
}

#[test]
fn log_lines_have_time_level_and_message() {
    let logger = Logger::new("bank".to_string());
    let trace = logger.log("Transaction 1 | PREPARE", LogLevel::TRACE, "2021-12-01 10:00:00");
    assert_eq!(trace.line, "2021-12-01 10:00:00 | TRACE  | Transaction 1 | PREPARE \n");
    assert_eq!(trace.console, None);
    let info = logger.log("Payment of $5 | OK", LogLevel::INFO, "now");
    assert_eq!(info.line, "now | INFO   | Payment of $5 | OK \n");
    assert_eq!(info.console, Some("bank: Payment of $5 | OK".to_string()));
    let finish = logger.log("", LogLevel::FINISH, "");
    assert_eq!(finish.line, " | FINISH |  \n");
    assert_eq!(finish.console, None);
}

#[test]
fn log_lines_agree_with_the_formatting_of_the_standard_library() {
    let logger = Logger::new("x".to_string());
    for level in [LogLevel::TRACE, LogLevel::INFO, LogLevel::FINISH] {
        let name = format!("{:?}", level);
        let expected = format!("{} | {:<6} | {} \n", "t", name, "m");
        assert_eq!(logger.log("m", level, "t").line, expected);
    }
}

const AGENTS: &str = "
- name: bank
  port: 5000
  successrate: 0.7
- name: airline
  port: 5001
  successrate: 1.0
- name: hotel
  port: 5002
  successrate: 0.9
";

#[test]
fn agents_are_read_from_yaml() {
    let agents = get_agents(AGENTS).unwrap();
    assert_eq!(agents.len(), 3);
    assert_eq!(agent_get_name(&agents[0]), Ok("bank".to_string()));
    assert_eq!(agent_get_port(&agents[0]), Ok(5000));
    assert_eq!(agent_get_name(&agents[2]), Ok("hotel".to_string()));
    assert_eq!(agent_get_port(&agents[2]), Ok(5002));
    assert_eq!(ports_of_agents(&agents), Ok(vec![5000, 5001, 5002]));
    assert_eq!(get_agents_ports(AGENTS), Ok(vec![5000, 5001, 5002]));
}

#[test]
fn agents_agree_with_serde_yaml() {
    let values: Vec<serde_yaml::Value> = serde_yaml::from_str(AGENTS).unwrap();
    assert_eq!(get_agents(AGENTS).unwrap(), values);
    for value in &values {
        assert_eq!(agent_get_port(value).unwrap() as u64, value["port"].as_u64().unwrap());
        assert_eq!(agent_get_name(value).unwrap(), value["name"].as_str().unwrap());
    }
}

#[test]
fn text_that_is_no_yaml_sequence_is_a_syntax_error() {
    assert_eq!(get_agents("name: bank"), Err(ConfigError::Syntax));
    assert_eq!(get_agents("- [unclosed"), Err(ConfigError::Syntax));
    assert_eq!(get_agents(""), Err(ConfigError::Syntax));
    assert_eq!(get_agents_ports("port: 1"), Err(ConfigError::Syntax));
    assert_eq!(get_agents("[]"), Ok(vec![]));
    assert_eq!(get_agents_ports("[]"), Ok(vec![]));
}

#[test]
fn blocks_are_measured_where_they_can_open() {
    assert!(blocks_within(b"", 0));
    assert!(blocks_within(b"a: 1\nb: 2", 0));
    assert!(blocks_within(b"name: a long text in which - and : and ? stand far out", 0));
    assert!(blocks_within(b"     \n\t\t\n", 0));
    assert!(!blocks_within(b" a", 0));
    assert!(blocks_within(b" a", 1));
    assert!(!blocks_within(b"- a", 1));
    assert!(blocks_within(b"- a", 2));
    assert!(!blocks_within(b"- - -", 3));
    assert!(blocks_within(b"- - -", 4));
    assert!(!blocks_within(b"- - -\n", 3));
    assert!(blocks_within(b"-a - b", 0));
    assert!(blocks_within(b"a\n b", 1));
    assert!(!blocks_within(b"a\n  b", 1));
    assert!(!blocks_within(b"abc\r- x", 3));
    assert!(!blocks_within(b"abc\rx", 3));
    assert!(blocks_within(b"abc\rx", 4));
    assert!(blocks_within(b"abc\r\nx", 0));
    assert!(!blocks_within(b"? : -\0x", 4));
    assert!(blocks_within(b"? : -\0x", 5));
    assert!(blocks_within(b"?a : x", 0));
}

#[test]
fn a_configuration_is_read_whatever_the_length_of_its_lines() {
    assert_eq!(MAX_BLOCK_COLUMN, 64);
    let long_name = format!("- name: \"{}\"\n  port: 9", "x: - ? ".repeat(500));
    assert_eq!(get_agents_ports(&long_name), Ok(vec![9]));
    let mut one_line = String::from("[");
    for port in 0..500 {
        one_line.push_str(&format!("{{name: agent, port: {}, successrate: 0.5}}, ", port));
    }
    one_line.push(']');
    assert_eq!(get_agents_ports(&one_line), Ok((0..500).collect::<Vec<u16>>()));
    let many_lines = "- port: 1\n".repeat(1000);
    assert_eq!(get_agents_ports(&many_lines), Ok(vec![1; 1000]));
    let indented = format!("{}- port: 3", " ".repeat(MAX_BLOCK_COLUMN - 2));
    assert_eq!(get_agents_ports(&indented), Ok(vec![3]));
}

#[test]
fn a_configuration_that_opens_a_block_too_far_out_is_not_read() {
    let indented = format!("{}- port: 3", " ".repeat(MAX_BLOCK_COLUMN - 1));
    assert_eq!(get_agents(&indented), Err(ConfigError::Syntax));
    assert_eq!(get_agents_ports(&indented), Err(ConfigError::Syntax));
    let deep = "- ".repeat(20_000);
    assert_eq!(get_agents(&deep), Err(ConfigError::Syntax));
    let stairs: String = (0..5000).map(|depth| format!("{}a:\n", " ".repeat(depth))).collect();
    assert_eq!(get_agents(&stairs), Err(ConfigError::Syntax));
}

#[test]
fn sequences_nested_on_one_line_are_read() {
    let levels = MAX_BLOCK_COLUMN / 2;
    let mut nested = "- ".repeat(levels);
    nested.push('7');
    assert!(blocks_within(nested.as_bytes(), MAX_BLOCK_COLUMN));
    let mut value = &get_agents(&nested).unwrap()[0];
    let mut depth = 1;
    while let Some(inner) = value.as_sequence() {
        value = &inner[0];
        depth += 1;
    }
    assert_eq!(depth, levels);
    assert_eq!(value.as_u64(), Some(7));
}

#[test]
fn the_deepest_texts_that_are_read_do_not_exhaust_the_stack() {
    // Blocks as deep as the bound lets them go: a mapping at every column,
    // or a mapping and a sequence by turns at every other column. Then
    // brackets and braces, more than the reader takes.
    let mut keys = String::new();
    for column in 0..=MAX_BLOCK_COLUMN {
        keys.push_str(&" ".repeat(column));
        keys.push_str("a:\n");
    }
    let mut turns = String::from("a:\n");
    let mut column = 0;
    while column + 2 <= MAX_BLOCK_COLUMN {
        turns.push_str(&" ".repeat(column));
        turns.push_str("- a:\n");
        column += 2;
    }
    let mut texts = vec![keys.clone(), turns.clone()];
    for open in ["[a: ", "{a: ", "[", "{a: [", "[{a: "] {
        for blocks in [&keys, &turns] {
            let mut text = blocks.clone();
            text.push_str(&" ".repeat(MAX_BLOCK_COLUMN));
            text.push_str(&open.repeat(300));
            texts.push(text);
            texts.push(format!("- {}", open.repeat(300)));
        }
    }
    for text in texts {
        assert!(blocks_within(text.as_bytes(), MAX_BLOCK_COLUMN));
        let values: Result<Vec<serde_yaml::Value>, _> = serde_yaml::from_str(&text);
        assert_eq!(get_agents(&text).ok(), values.ok());
    }
}

#[test]
fn ports_must_be_whole_numbers_that_fit() {
    let port = |text: &str| {
        let agents = get_agents(text).unwrap();
        agent_get_port(&agents[0])
    };
    assert_eq!(port("- port: 0"), Ok(0));
    assert_eq!(port("- port: 65535"), Ok(65535));
    assert_eq!(port("- port: 65536"), Err(ConfigError::Port));
    assert_eq!(port("- port: -1"), Err(ConfigError::Port));
    assert_eq!(port("- port: 80.5"), Err(ConfigError::Port));
    assert_eq!(port("- port: \"80\""), Err(ConfigError::Port));
    assert_eq!(port("- name: bank"), Err(ConfigError::Port));
    assert_eq!(port("- 5000"), Err(ConfigError::Port));
    assert_eq!(port("- [5000]"), Err(ConfigError::Port));
    assert_eq!(
        get_agents_ports("- port: 1\n- port: 70000\n- port: 3"),
        Err(ConfigError::Port)
    );
}

#[test]
fn names_must_be_strings() {
    let name = |text: &str| {
        let agents = get_agents(text).unwrap();
        agent_get_name(&agents[0])
    };
    assert_eq!(name("- name: hotel"), Ok("hotel".to_string()));
    assert_eq!(name("- name: \"\""), Ok(String::new()));
    assert_eq!(name("- name: 12"), Err(ConfigError::Name));
    assert_eq!(name("- port: 12"), Err(ConfigError::Name));
    assert_eq!(name("- hotel"), Err(ConfigError::Name));
}

#[test]
fn kill_lines_name_a_target_in_range() {
    assert_eq!(parse_kill_line("0", 5), Some(0));
    assert_eq!(parse_kill_line("4", 5), Some(4));
    assert_eq!(parse_kill_line("5", 5), None);
    assert_eq!(parse_kill_line("  3\n", 5), Some(3));
    assert_eq!(parse_kill_line("\t+2 \r\n", 5), Some(2));
    assert_eq!(parse_kill_line("003", 5), Some(3));
    assert_eq!(parse_kill_line("\u{a0}1\u{3000}", 5), Some(1));
    assert_eq!(parse_kill_line("12", 13), Some(12));
    assert_eq!(parse_kill_line("0", 0), None);
}

#[test]
fn kill_lines_are_read_in_steps() {
    let line = " \u{2003}+12\t\n";
    let lo = trimmed_start(line);
    let hi = trimmed_end(line, lo);
    assert_eq!((lo, hi), (2, 5));
    assert_eq!(plain_bytes(line, lo, hi), Some(b"+12".to_vec()));
    assert_eq!(plain_bytes(line, 1, hi), None);
    assert_eq!(trimmed_start("   "), 3);
    assert_eq!(trimmed_end("   ", 3), 3);
    assert_eq!(plain_bytes("\u{130}", 0, 1), None);
    assert_eq!(parse_kill_line("\u{130}", 5), None);
    assert_eq!(parse_kill_line("\u{131}", 5), None);
}

#[test]
fn numbers_below_a_bound() {
    assert_eq!(parse_below(b"41", 0, 2, 42), Some(41));
    assert_eq!(parse_below(b"42", 0, 2, 42), None);
    assert_eq!(parse_below(b"+0", 0, 2, 1), Some(0));
    assert_eq!(parse_below(b"0", 0, 1, 0), None);
    assert_eq!(parse_below(b"18446744073709551614", 0, 20, u64::MAX), Some(u64::MAX - 1));
    assert_eq!(parse_below(b"18446744073709551615", 0, 20, u64::MAX), None);
    assert_eq!(parse_below(b"99999999999999999999999", 0, 23, u64::MAX), None);
    assert_eq!(parse_below(b"1a", 0, 2, 100), None);
    assert_eq!(parse_below(b"", 0, 0, 100), None);
}

#[test]
fn other_lines_kill_nobody() {
    for line in
        ["", " ", "+", "-1", "1 2", "one", "1.0", "0x1", "99999999999999999999999999", "\u{663}"]
    {
        assert_eq!(parse_kill_line(line, 5), None, "line {:?}", line);
    }
}

#[test]
fn kill_lines_agree_with_the_standard_library() {
    for line in ["7", " 7 ", "+7", "07", "7\u{2003}", "", "x", "18446744073709551616", "10"] {
        let expected = match line.trim().parse::<usize>() {
            Ok(number) if (0..10).contains(&number) => Some(number),
            _ => None,
        };
        assert_eq!(parse_kill_line(line, 10), expected, "line {:?}", line);
    }
}

#[test]
fn white_space_agrees_with_the_standard_library() {
    for code in 0..0x11000u32 {
        if let Some(c) = char::from_u32(code) {
            assert_eq!(is_whitespace(c), c.is_whitespace(), "code {:x}", code);
        }
    }
}
