use bignum::bank::Bank;
use bignum::bank::User;

fn balance_of(bank: &Bank, name: &str) -> i64 {
    bank.users.iter().find(|u| u.name == name).unwrap().balance
}

fn credit_line_of(bank: &Bank, name: &str) -> u64 {
    bank.users.iter().find(|u| u.name == name).unwrap().credit_line
}

#[test]
fn test_bank_creation() {
    let bank = Bank::new("Test Bank".to_string(), 500, 300);
    assert_eq!(bank.name, "Test Bank");
    assert_eq!(bank.credit_interest, 500);
    assert_eq!(bank.debit_interest, 300);
    assert!(bank.users.is_empty());
}

#[test]
fn test_add_user() {
    let mut bank = Bank::new("Test Bank".to_string(), 500, 300);
    let user = User {
        name: "Alice".to_string(),
        credit_line: 1000,
        balance: 500,
    };

    assert!(bank.add_user(user).is_ok());
    assert_eq!(bank.users.len(), 1);

    let duplicate_user = User {
        name: "Alice".to_string(),
        credit_line: 2000,
        balance: 1000,
    };
    assert!(bank.add_user(duplicate_user).is_err());

    assert_eq!(credit_line_of(&bank, "Alice"), 1000);
    assert_eq!(balance_of(&bank, "Alice"), 500);
}

#[test]
fn test_transfer_funds() {
    let mut bank = Bank::new("Test Bank".to_string(), 500, 300);

    let alice = User {
        name: "Alice".to_string(),
        credit_line: 1000,
        balance: 500,
    };
    let bob = User {
        name: "Bob".to_string(),
        credit_line: 2000,
        balance: 200,
    };

    bank.add_user(alice).unwrap();
    bank.add_user(bob).unwrap();

    assert!(bank.transfer_funds("Alice", "Bob", 300).is_ok());

    assert_eq!(balance_of(&bank, "Alice"), 200);
    assert_eq!(balance_of(&bank, "Bob"), 500);

    assert!(bank.transfer_funds("Alice", "Bob", 1500).is_err());

    assert_eq!(balance_of(&bank, "Alice"), 200);
    assert_eq!(balance_of(&bank, "Bob"), 500);
}

#[test]
fn test_accrue_interest() {
    let mut bank = Bank::new("Test Bank".to_string(), 500, 300);

    let alice = User {
        name: "Alice".to_string(),
        credit_line: 1000,
        balance: 1000,
    };
    let bob = User {
        name: "Bob".to_string(),
        credit_line: 2000,
        balance: -500,
    };

    bank.add_user(alice).unwrap();
    bank.add_user(bob).unwrap();

    assert!(bank.accrue_interest().is_ok());

    assert_eq!(balance_of(&bank, "Alice"), 1030);
    assert_eq!(balance_of(&bank, "Bob"), -525);
}

#[test]
fn test_merge_bank() {
    let mut bank1 = Bank::new("Bank 1".to_string(), 500, 300);
    let mut bank2 = Bank::new("Bank 2".to_string(), 600, 400);

    let alice = User {
        name: "Alice".to_string(),
        credit_line: 1000,
        balance: 1000,
    };
    let bob = User {
        name: "Bob".to_string(),
        credit_line: 2000,
        balance: -500,
    };

    bank1.add_user(alice).unwrap();
    bank1.add_user(bob).unwrap();

    let charlie = User {
        name: "Charlie".to_string(),
        credit_line: 1500,
        balance: 800,
    };
    let alice_bank2 = User {
        name: "Alice".to_string(),
        credit_line: 500,
        balance: 500,
    };

    bank2.add_user(charlie).unwrap();
    bank2.add_user(alice_bank2).unwrap();

    assert!(bank1.merge_bank(bank2).is_ok());

    assert_eq!(bank1.users.len(), 3);
    assert_eq!(bank1.credit_interest, 550);
    assert_eq!(bank1.debit_interest, 350);

    assert_eq!(balance_of(&bank1, "Alice"), 1500);
    assert_eq!(balance_of(&bank1, "Charlie"), 800);
}

#[test]
fn bank_test_bank_creation() {
    let b = Bank::new("B".to_string(), 500, 300);
    assert_eq!(b.name, "B");
    assert_eq!(b.credit_interest, 500);
    assert_eq!(b.debit_interest, 300);
    assert!(b.users.is_empty());
}

#[test]
fn bank_test_add_user() {
    let mut b = Bank::new("B".to_string(), 500, 300);
    let u = User {
        name: "A".to_string(),
        credit_line: 1000,
        balance: 500,
    };
    assert!(b.add_user(u).is_ok());
    assert_eq!(b.users.len(), 1);
    assert!(b
        .add_user(User {
            name: "A".to_string(),
            credit_line: 0,
            balance: 0,
        })
        .is_err());
}

#[test]
fn bank_test_transfer_funds() {
    let mut b = Bank::new("B".to_string(), 0, 0);
    b.add_user(User {
        name: "A".to_string(),
        credit_line: 1000,
        balance: 500,
    })
    .unwrap();
    b.add_user(User {
        name: "C".to_string(),
        credit_line: 0,
        balance: 0,
    })
    .unwrap();
    assert!(b.transfer_funds("A", "C", 300).is_ok());
    assert_eq!(balance_of(&b, "A"), 200);
    assert_eq!(balance_of(&b, "C"), 300);
}

#[test]
fn test_calc_balance() {
    let mut bank = Bank::new("Test Bank".to_string(), 0, 0);
    bank.add_user(User {
        name: "Plus".to_string(),
        credit_line: 0,
        balance: 700,
    })
    .unwrap();
    bank.add_user(User {
        name: "Minus".to_string(),
        credit_line: 1000,
        balance: -250,
    })
    .unwrap();
    bank.add_user(User {
        name: "Zero".to_string(),
        credit_line: 0,
        balance: 0,
    })
    .unwrap();
    let (liability, asset) = bank.calc_balance();
    assert_eq!(liability, 700);
    assert_eq!(asset, 250);
}

#[test]
fn test_transfer_errors() {
    let mut bank = Bank::new("Test Bank".to_string(), 0, 0);
    bank.add_user(User {
        name: "A".to_string(),
        credit_line: 0,
        balance: 10,
    })
    .unwrap();
    // Unknown sender and unknown receiver are each rejected.
    assert!(bank.transfer_funds("Nobody", "A", 1).is_err());
    assert!(bank.transfer_funds("A", "Nobody", 1).is_err());
    // Exceeding the credit line is rejected and changes nothing.
    assert!(bank.transfer_funds("A", "A", 0).is_ok());
    bank.add_user(User {
        name: "B".to_string(),
        credit_line: 0,
        balance: 0,
    })
    .unwrap();
    assert!(bank.transfer_funds("A", "B", 11).is_err());
    assert_eq!(balance_of(&bank, "A"), 10);
    assert_eq!(balance_of(&bank, "B"), 0);
    // An amount beyond i64::MAX cannot be processed.
    assert!(bank.transfer_funds("A", "B", u64::MAX).is_err());
}
