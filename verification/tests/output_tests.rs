use insearch::cli::Output;
use insearch::model::Match;
use insearch::output::{distinct_paths, output_lines};

fn hit(path: &str, line: u64, text: &str) -> Match {
    Match {
        path: path.to_string(),
        line_start: line,
        line_end: line,
        byte_offset: 0,
        text: text.to_string(),
        matched_line: line,
    }
}

fn sample() -> Vec<Match> {
    vec![hit("b.log", 3, "boom"), hit("a.log", 1, "say \"hi\""), hit("b.log", 9, "again"), hit("ä.log", 2, "x")]
}

#[test]
fn plain_and_json_lines_follow_the_hits() {
    assert_eq!(
        output_lines(Output::Lines, &sample()),
        vec!["b.log:3: boom", "a.log:1: say \"hi\"", "b.log:9: again", "ä.log:2: x"]
    );
    assert_eq!(
        output_lines(Output::Json, &sample())[1],
        "{\"path\":\"a.log\",\"line\":1,\"text\":\"say \\\"hi\\\"\"}"
    );
    assert_eq!(output_lines(Output::Count, &sample()), vec!["4"]);
    assert_eq!(output_lines(Output::Count, &vec![]), vec!["0"]);
}

#[test]
fn files_only_lists_each_path_once_in_order() {
    assert_eq!(output_lines(Output::FilesOnly, &sample()), vec!["a.log", "b.log", "ä.log"]);
    assert_eq!(distinct_paths(&vec![hit("z", 1, ""), hit("ab", 1, ""), hit("a", 1, ""), hit("z", 2, "")]), vec!["a", "ab", "z"]);
    assert!(distinct_paths(&vec![]).is_empty());
}
