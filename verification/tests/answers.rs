//! What an answer tells, over the worked example of the README.

use rkev::number::Real;
use rkev::table::Table;
use rkev::types::{Answer, Choice, Noul, Question, SystemOneRequest, SystemOneResponse, Usage};
use rkev::value::Value;

fn bits(x: f64) -> Real {
    Real { bits: x.to_bits() }
}

fn float(r: Real) -> f64 {
    f64::from_bits(r.bits)
}

fn distribution(entries: &[(&str, f64)]) -> Table<Real> {
    let mut table = Table::new();
    for (key, p) in entries {
        table = table.insert(key, bits(*p));
    }
    table
}

fn readme_response() -> SystemOneResponse {
    SystemOneResponse {
        model: String::from("kev-latest"),
        answers: Table::new()
            .insert(
                "department",
                Answer::Choice {
                    choice: String::from("returns"),
                    confidence: bits(0.21),
                    probabilities: distribution(&[
                        ("returns", 0.47),
                        ("shipping", 0.28),
                        ("billing", 0.25),
                    ]),
                },
            )
            .insert("escalate", Answer::Noul { noul: bits(0.93) })
            .insert(
                "frustration",
                Answer::Score {
                    score: bits(1.44),
                    confidence: bits(0.78),
                    legend: Table::new()
                        .insert("0", String::from("Calm"))
                        .insert("1", String::from("Frustrated"))
                        .insert("2", String::from("Very angry")),
                    probabilities: distribution(&[("0", 0.00), ("1", 0.56), ("2", 0.44)]),
                },
            ),
        usage: Usage {
            input_tokens: 101,
            output_tokens: 161,
        },
        latency_ms: Some(bits(495.0)),
        request_id: None,
    }
}

#[test]
fn a_noul_answer_reports_no_confidence_or_distribution() {
    let response = readme_response();
    let escalate = response.answer("escalate").unwrap();

    // The probability of yes is the whole answer; there is nothing else to report.
    assert!(escalate.confidence().is_none());
    assert!(escalate.probabilities().is_none());
    assert_eq!(escalate.as_choice(), None);
    assert_eq!(escalate.as_noul().map(float), Some(0.93));
    assert!(escalate.as_score().is_none());
    assert!(escalate.top().is_none());
    assert!(escalate.legend().is_none());
}

#[test]
fn top_returns_the_most_likely_label_of_a_distribution() {
    let response = readme_response();

    let department = response.answer("department").unwrap();
    assert_eq!(
        department.top().map(|(label, p)| (label, float(p))),
        Some(("returns", 0.47))
    );
    assert!(department.legend().is_none());
    // For a score the label is the level index; the legend names it.
    let frustration = response.answer("frustration").unwrap();
    assert_eq!(
        frustration.top().map(|(label, p)| (label, float(p))),
        Some(("1", 0.56))
    );
    assert_eq!(
        frustration.legend().unwrap().get("1").map(String::as_str),
        Some("Frustrated")
    );
    assert_eq!(frustration.as_choice(), None);
    assert!(frustration.as_noul().is_none());
}

#[test]
fn an_unknown_question_id_is_absent_rather_than_a_panic() {
    assert!(readme_response().answer("no_such_question").is_none());
}

#[test]
fn of_equally_likely_labels_the_last_is_the_top() {
    let answer = Answer::Choice {
        choice: String::from("a"),
        confidence: bits(0.0),
        probabilities: distribution(&[("a", 0.4), ("b", 0.4), ("c", 0.2)]),
    };

    assert_eq!(answer.top().unwrap().0, "b");
}

#[test]
fn an_empty_distribution_has_no_top() {
    let answer = Answer::Choice {
        choice: String::new(),
        confidence: bits(0.0),
        probabilities: Table::new(),
    };

    assert!(answer.top().is_none());
}

#[test]
fn a_table_keeps_a_key_where_it_was_first_put() {
    let table = Table::new()
        .insert("a", 1)
        .insert("b", 2)
        .insert("a", 3)
        .insert("", 4);

    assert_eq!(table.keys(), ["a", "b", ""]);
    assert_eq!(table.len(), 3);
    assert_eq!(table.get("a"), Some(&3));
    assert_eq!(table.get(""), Some(&4));
    assert_eq!(table.get("c"), None);
    assert_eq!((table.key_at(1), *table.value_at(1)), ("b", 2));
    assert!(!table.is_empty() && Table::<u8>::new().is_empty());
}

#[test]
fn choice_options_keep_the_order_they_were_added_in() {
    // Option order is part of the request and can move the answer.
    let question = Choice::new(Value::text("Which team?"))
        .option("shipping", "Delivery")
        .option("returns", "Refunds")
        .option_bare("billing");

    assert_eq!(question.criteria.keys(), ["shipping", "returns", "billing"]);
    assert_eq!(
        question.criteria.get("shipping").unwrap().as_deref(),
        Some("Delivery")
    );
    assert_eq!(
        question.criteria.get("returns").unwrap().as_deref(),
        Some("Refunds")
    );
    assert_eq!(question.criteria.get("billing").unwrap().as_deref(), None);
}

#[test]
fn options_are_replaced_where_they_stand() {
    let question = Choice::new(Value::text("Which team?"))
        .option("shipping", "Delivery")
        .option_bare("billing")
        .options(vec![
            (String::from("returns"), String::from("Refunds")),
            (String::from("shipping"), String::from("Parcels")),
        ])
        .option_bare("returns");

    assert_eq!(question.criteria.keys(), ["shipping", "billing", "returns"]);
    assert_eq!(
        question.criteria.get("shipping").unwrap().as_deref(),
        Some("Parcels")
    );
    assert_eq!(question.criteria.get("returns").unwrap().as_deref(), None);
}

#[test]
fn a_noul_describes_either_answer_or_neither() {
    let bare = Noul::new(Value::text("Urgent?"));
    assert!(bare.criteria.is_none());

    let described = bare.no("Can wait").yes("Today").no("Later");
    let criteria = described.criteria.unwrap();
    assert_eq!(criteria.yes.as_deref(), Some("Today"));
    assert_eq!(criteria.no.as_deref(), Some("Later"));
}

#[test]
fn a_request_names_no_model_until_one_is_filled_in() {
    let request = SystemOneRequest::new(Value::Null).ask("q", Noul::new(Value::Null));

    assert!(request.model.is_none());
    assert!(matches!(
        request.questions.get("q"),
        Some(Question::Noul(_))
    ));
    assert_eq!(request.model("kev-4b").model.as_deref(), Some("kev-4b"));
}
