//! Texts, numbers, orders and the way answers are written.

use rkev::number::{argmax, argmin, Real, Single};
use rkev::permute::{clamp_rounds, in_order, order_in_round};
use rkev::prompt::{option_text, plan_question, Kind, Plan};
use rkev::readout::{answer, answers_json, push_float, push_string, Distribution, Probability};
use rkev::table::Table;
use rkev::text::{
    decimal_text, ends_with, hex_digit_char, holds_char, is_listed, is_white_space, join,
    push_hex4, starts_with, strip_prefix, strip_suffix, trim_end_slashes, trim_start,
};
use rkev::types::{Answer, Choice, Question, Score};
use rkev::value::Value;

fn texts(list: &[&str]) -> Vec<String> {
    list.iter().map(|text| text.to_string()).collect()
}

fn bits(x: f64) -> Real {
    Real { bits: x.to_bits() }
}

fn write(r: Real) -> String {
    format!("{}", f64::from_bits(r.bits))
}

#[test]
fn white_space_is_what_unicode_calls_so() {
    for n in 0..=0x10ffff {
        if let Some(c) = char::from_u32(n) {
            assert_eq!(is_white_space(c), c.is_whitespace(), "{n:x}");
        }
    }
}

#[test]
fn texts_are_taken_apart() {
    let accented = "\u{e9}t\u{e9}";
    assert!(starts_with(accented, "\u{e9}t") && !starts_with(accented, "t"));
    assert!(ends_with(accented, "t\u{e9}") && !ends_with("x", accented));
    assert_eq!(strip_prefix(accented, "\u{e9}").as_deref(), Some("t\u{e9}"));
    assert_eq!(strip_suffix(accented, "x"), None);
    assert!(holds_char(accented, 't') && !holds_char("", 't'));
    assert_eq!(trim_start(" \t\u{2003}a b "), "a b ");
    assert_eq!(trim_end_slashes("a//b//"), "a//b");
    assert_eq!(join(&texts(&["a", "", "b"]), ", "), "a, , b");
    assert_eq!(join(&[], ", "), "");
    assert!(is_listed(&texts(&["a", "b"]), "b") && !is_listed(&[], ""));
}

#[test]
fn numbers_are_written_in_digits() {
    for n in [0, 7, 10, 42, 1000, usize::MAX] {
        assert_eq!(decimal_text(n), n.to_string());
    }
    assert_eq!(hex_digit_char(11), 'b');
    let mut out = String::from("x");
    push_hex4(&mut out, 0x0a9f);
    assert_eq!(out, "x0a9f");
}

#[test]
fn numbers_compare_as_their_values_do() {
    let list = [
        f64::NEG_INFINITY,
        -1.5,
        -0.0,
        0.0,
        f64::MIN_POSITIVE,
        0.25,
        1.0,
        f64::INFINITY,
        f64::NAN,
        -f64::NAN,
    ];
    for a in list {
        assert_eq!(bits(a).is_nan(), a.is_nan());
        for b in list {
            assert_eq!(bits(a).exceeds(&bits(b)), a > b, "{a} {b}");
            assert_eq!(
                bits(a).ranks_from(&bits(b)),
                a.total_cmp(&b).is_ge(),
                "{a} {b}"
            );
        }
    }
    for x in [-1.0f32, -0.0, 0.0, 1e-30, 2.0, f32::INFINITY, f32::NAN] {
        assert_eq!(Single { bits: x.to_bits() }.is_positive(), x > 0.0);
    }
}

#[test]
fn of_equal_numbers_the_first_counts() {
    let list = [0.2, 0.4, 0.4, 0.1, 0.1].map(bits);

    assert_eq!(argmax(&list), 1);
    assert_eq!(argmin(&list), 3);
    assert_eq!((argmax(&list[..1]), argmin(&list[..1])), (0, 0));
}

#[test]
fn the_first_round_keeps_the_order_and_the_others_shuffle_it() {
    assert_eq!(order_in_round(4, 9, 0), [0, 1, 2, 3]);
    assert_eq!(order_in_round(0, 9, 5), Vec::<usize>::new());
    let mut moved = false;
    for round in 0..20 {
        let order = order_in_round(5, 3, round);
        let mut sorted = order.clone();
        sorted.sort();
        assert_eq!(sorted, [0, 1, 2, 3, 4], "round {round}");
        assert_eq!(order, order_in_round(5, 3, round));
        moved = moved || order != sorted;
    }
    assert!(moved);
    assert_eq!(
        in_order(&texts(&["a", "b", "c"]), &[2, 0, 1]),
        ["c", "a", "b"]
    );
    assert_eq!([0, 1, 64, 65].map(clamp_rounds), [1, 1, 64, 64]);
}

#[test]
fn an_option_is_its_name_and_its_description() {
    assert_eq!(option_text("calm", &None), "calm");
    assert_eq!(
        option_text("calm", &Some(String::from("no rush"))),
        "calm: no rush"
    );
}

#[test]
fn a_score_is_keyed_by_its_levels() {
    let question = Question::from(
        Score::new(Value::text("How?"))
            .level("lo")
            .levels(texts(&["mid", "hi"])),
    );

    let (ask, plan) = plan_question("q", &question);

    assert_eq!(ask.instructions, "How?");
    assert_eq!(ask.options, ["lo", "mid", "hi"]);
    assert_eq!(plan.kind, Kind::Score);
    assert_eq!(plan.keys, ["0", "1", "2"]);
    assert_eq!(plan.legend.unwrap().get("2").unwrap(), "hi");
}

#[test]
fn a_choice_is_keyed_by_its_names() {
    let question = Question::from(
        Choice::new(Value::Null)
            .option("b", "second")
            .option_bare("a"),
    );

    let (ask, plan) = plan_question("q", &question);

    assert_eq!(ask.instructions, "");
    assert_eq!(ask.options, ["b: second", "a"]);
    assert_eq!(plan.keys, ["b", "a"]);
    assert!(plan.legend.is_none());
}

#[test]
fn a_distribution_of_another_length_is_an_error() {
    let plan = Plan {
        id: String::from("q\"1"),
        kind: Kind::Choice,
        keys: texts(&["a", "b"]),
        legend: None,
    };
    let one = Distribution {
        options: vec![Probability {
            exact: bits(1.0),
            reported: bits(1.0),
        }],
        confidence: bits(1.0),
        mean: bits(0.0),
    };

    assert_eq!(
        answer(&one, &plan).unwrap_err().message(),
        "the local kev engine failed: question \"q\\\"1\" has 2 options but the readout produced \
         1 probabilities"
    );
}

#[test]
fn the_winner_is_the_most_likely_before_rounding() {
    let plan = Plan {
        id: String::from("q"),
        kind: Kind::Choice,
        keys: texts(&["a", "b"]),
        legend: None,
    };
    let close = Distribution {
        options: vec![
            Probability {
                exact: bits(0.499_99),
                reported: bits(0.5),
            },
            Probability {
                exact: bits(0.500_01),
                reported: bits(0.5),
            },
        ],
        confidence: bits(0.0),
        mean: bits(0.5),
    };

    assert_eq!(answer(&close, &plan).unwrap().as_choice(), Some("b"));
}

#[test]
fn texts_are_quoted_in_plain_ascii() {
    let quoted = |value: &str| {
        let mut out = String::new();
        push_string(&mut out, value);
        out
    };

    assert_eq!(quoted("a\"b\\c\n\r\t"), r#""a\"b\\c\n\r\t""#);
    assert_eq!(
        quoted("\u{7}\u{8}\u{c}\u{1f}~\u{7f}"),
        "\"\\u0007\\b\\f\\u001f~\\u007f\""
    );
    assert_eq!(
        quoted("\u{e9}\u{ffff}\u{1f600}"),
        "\"\\u00e9\\uffff\\ud83d\\ude00\""
    );
}

#[test]
fn numbers_always_have_a_fraction() {
    let float = |shown: &str| {
        let mut out = String::new();
        push_float(&mut out, shown);
        out
    };

    assert_eq!(float("1"), "1.0");
    assert_eq!(float("0.25"), "0.25");
    assert_eq!(float("1e-7"), "1e-7");
}

#[test]
fn answers_are_written_as_json() {
    let answers = Table::new()
        .insert("\u{fc}", Answer::Noul { noul: bits(1.0) })
        .insert(
            "c",
            Answer::Choice {
                choice: String::from("x"),
                confidence: bits(0.5),
                probabilities: Table::new().insert("x", bits(0.75)),
            },
        );

    assert_eq!(
        answers_json(&answers, &write),
        "{\"\\u00fc\": {\"type\": \"noul\", \"noul\": 1.0}, \"c\": {\"type\": \"choice\", \
         \"choice\": \"x\", \"confidence\": 0.5, \"probabilities\": {\"x\": 0.75}}}"
    );
    assert_eq!(answers_json(&Table::new(), &write), "{}");
}

#[test]
fn a_quoted_text_reads_back_as_the_text() {
    let texts = [
        "", "a", "\"", "\\", "\\u0041", "A", "\u{1}\n\t\r\u{8}\u{c}", "\u{7f}", "\u{e9}",
        "\u{2028}", "\u{ffff}", "\u{10000}", "\u{1f600}\u{10ffff}", "{\"a\": 1}",
    ];
    let quoted: Vec<String> = texts
        .iter()
        .map(|text| {
            let mut out = String::new();
            push_string(&mut out, text);
            out
        })
        .collect();

    for (text, quoted) in texts.iter().zip(&quoted) {
        assert_eq!(&serde_json::from_str::<String>(quoted).unwrap(), text);
    }
    // No two of them are written alike.
    for (i, one) in quoted.iter().enumerate() {
        assert!(quoted[i + 1..].iter().all(|other| other != one));
    }
}
