use solution::fizzbuzz::FizzBuzzer;
use solution::fizzbuzz::custom_buzz;
use solution::fizzbuzz::fizzbuzz;
use solution::fizzbuzz_iter::FizzBuzzer as StreamBuzzer;
use solution::machine::Interpreter;
use solution::machine::RuntimeError;

#[test]
fn test_fizzbuzz_first_fifteen() {
    let out = fizzbuzz(15);
    assert_eq!(out.len(), 15);
    assert_eq!(out[0], "1");
    assert_eq!(out[2], "Fizz");
    assert_eq!(out[4], "Buzz");
    assert_eq!(out[8], "Fizz");
    assert_eq!(out[9], "Buzz");
    assert_eq!(out[14], "Fizzbuzz");
}

#[test]
fn test_custom_buzz_divisors() {
    let out = custom_buzz(6, 2, 3);
    assert_eq!(out, vec!["1", "Fizz", "Buzz", "Fizz", "5", "Fizzbuzz"]);
}

#[test]
fn test_change_label_applies_to_later_take() {
    let mut buzzer = FizzBuzzer {
        k1: 3,
        k2: 5,
        labels: ["Fizz".to_string(), "Buzz".to_string(), "Fizzbuzz".to_string()],
    };
    buzzer.change_label(0, &"Whirr".to_string());
    let out = buzzer.take(3);
    assert_eq!(out, vec!["1", "2", "Whirr"]);
}

#[test]
fn test_stream_buzzer_counts_from_one() {
    let buzzer = StreamBuzzer::new([
        "Fizz".to_string(),
        "Buzz".to_string(),
        "Fizzbuzz".to_string(),
    ]);
    let mut it = buzzer.iter();
    assert_eq!(it.next().unwrap(), "1");
    assert_eq!(it.next().unwrap(), "2");
    assert_eq!(it.next().unwrap(), "Fizz");
    assert_eq!(it.next().unwrap(), "4");
    assert_eq!(it.next().unwrap(), "Buzz");
}

#[test]
fn test_machine_push_overflow_is_invalid() {
    let mut interpreter = Interpreter::new();
    interpreter.add_instructions(&["PUSH 2147483648", "PUSH 2147483647"]);
    assert_eq!(interpreter.forward(), Err(RuntimeError::InvalidCommand));
    interpreter.instructions.pop_front();
    interpreter.forward().unwrap();
    assert_eq!(interpreter.stack, &[2147483647]);
}

#[test]
fn test_machine_pop_and_undo() {
    let mut interpreter = Interpreter::new();
    interpreter.add_instructions(&["PUSH 8", "POP"]);
    interpreter.run().unwrap();
    assert_eq!(interpreter.stack, &[]);
    interpreter.back().unwrap();
    assert_eq!(interpreter.stack, &[8]);
    assert_eq!(interpreter.instructions, &["POP"]);
    interpreter.back().unwrap();
    assert_eq!(interpreter.stack, &[]);
    assert_eq!(interpreter.instructions, &["PUSH 8", "POP"]);
}
