use smart_manager_core::priority::Priority;
use smart_manager_core::questions::QuestionPriority;

#[test]
fn test_score_orders_descending_from_critical() {
    assert!(Priority::Critical.score() > Priority::High.score());
    assert!(Priority::High.score() > Priority::Medium.score());
    assert!(Priority::Medium.score() > Priority::Low.score());
    assert!(Priority::Low.score() > Priority::LongTerm.score());
}

#[test]
fn test_letter_returns_first_letter_for_each_variant() {
    assert_eq!(Priority::Critical.letter(), 'C');
    assert_eq!(Priority::High.letter(), 'H');
    assert_eq!(Priority::Medium.letter(), 'M');
    assert_eq!(Priority::Low.letter(), 'L');
    assert_eq!(Priority::LongTerm.letter(), 'T');
}

#[test]
fn test_from_question_priority_maps_each_variant() {
    assert_eq!(Priority::from(&QuestionPriority::Critical), Priority::Critical);
    assert_eq!(Priority::from(&QuestionPriority::High), Priority::High);
    assert_eq!(Priority::from(&QuestionPriority::Medium), Priority::Medium);
    assert_eq!(Priority::from(&QuestionPriority::Low), Priority::Low);
    assert_eq!(Priority::from(&QuestionPriority::LongTerm), Priority::LongTerm);
}

#[test]
fn scores_are_four_down_to_zero_and_distinct() {
    let all = [Priority::Critical, Priority::High, Priority::Medium, Priority::Low, Priority::LongTerm];
    let scores: Vec<u8> = all.iter().map(|p| p.score()).collect();
    assert_eq!(scores, vec![4, 3, 2, 1, 0]);
    for (i, a) in all.iter().enumerate() {
        for (j, b) in all.iter().enumerate() {
            assert_eq!(a.score() == b.score(), i == j);
        }
    }
}

#[test]
fn labels_name_each_priority() {
    assert_eq!(Priority::Critical.label(), "Critical");
    assert_eq!(Priority::High.label(), "High");
    assert_eq!(Priority::Medium.label(), "Medium");
    assert_eq!(Priority::Low.label(), "Low");
    assert_eq!(Priority::LongTerm.label(), "LongTerm");
}
