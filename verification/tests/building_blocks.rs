use tipjar::address::{Address, AddressList};
use tipjar::amounts::saturating_add;
use tipjar::table::Table;
use tipjar::wide::Wide;

fn account(n: u128) -> Address {
    Address { contract: false, hi: n, lo: 1 }
}

#[test]
fn a_new_list_is_empty() {
    let list = AddressList::new(&soroban_sdk::Env::default());
    assert_eq!(list.len(), 0);
    assert_eq!(list.to_vec(), vec![]);
    assert!(!list.contains(&account(1)));
}

#[test]
fn addresses_are_listed_in_order() {
    let mut list = AddressList::new(&soroban_sdk::Env::default());
    list.push_back(account(3));
    list.push_back(account(1));
    list.push_back(account(3));
    assert_eq!(list.len(), 3);
    assert_eq!(list.to_vec(), vec![account(3), account(1), account(3)]);
}

#[test]
fn a_list_tells_addresses_apart() {
    let mut list = AddressList::new(&soroban_sdk::Env::default());
    let address = Address { contract: true, hi: u128::MAX, lo: 5 };
    list.push_back(address);
    assert!(list.contains(&address));
    assert!(!list.contains(&Address { contract: false, ..address }));
    assert!(!list.contains(&Address { hi: 0, ..address }));
    assert!(!list.contains(&Address { lo: u128::MAX, ..address }));
    assert_eq!(list.to_vec(), vec![address]);
}

#[test]
fn a_copy_grows_on_its_own() {
    let mut list = AddressList::new(&soroban_sdk::Env::default());
    list.push_back(account(1));
    let mut copy = list.copied();
    copy.push_back(account(2));
    assert_eq!(list.to_vec(), vec![account(1)]);
    assert_eq!(copy.to_vec(), vec![account(1), account(2)]);
    list.push_back(account(3));
    assert_eq!(copy.to_vec(), vec![account(1), account(2)]);
}

#[test]
fn sums_saturate() {
    assert_eq!(saturating_add(2, 3), 5);
    assert_eq!(saturating_add(i128::MAX, 1), i128::MAX);
    assert_eq!(saturating_add(i128::MIN, -1), i128::MIN);
}

#[test]
fn a_table_keeps_the_last_entry() {
    let mut table: Table<(u64, Address), i128> = Table::new();
    assert!(!table.has(&(1, account(1))));
    table.set((1, account(1)), 10);
    table.set((1, account(2)), 20);
    table.set((2, account(1)), 30);
    table.set((1, account(1)), 40);
    assert_eq!(table.get(&(1, account(1))), Some(&40));
    assert_eq!(table.get(&(1, account(2))), Some(&20));
    assert_eq!(table.get(&(2, account(1))), Some(&30));
    assert_eq!(table.get(&(2, account(2))), None);
    assert!(table.has(&(2, account(1))));
}

#[test]
fn wide_products_are_exact() {
    let top = Wide::product(u128::MAX, u128::MAX);
    // (x + 1)² - 2x - 1 = x².
    let square = Wide::product(u128::MAX - 1, u128::MAX - 1);
    let twice = Wide::product(u128::MAX - 1, 2);
    assert_eq!(square.plus(&twice).plus(&Wide::new(1)), top);
    assert_eq!(top.minus(&twice).minus(&Wide::new(1)), square);
    assert_eq!(Wide::product(1 << 64, 1 << 63), Wide::new(1 << 127));
    assert_eq!(Wide::product(12_345, 0), Wide::new(0));
    assert!(Wide::product(0, 7).is_zero());
    assert!(!top.is_zero());
}

#[test]
fn wide_numbers_are_ordered() {
    let small = Wide::new(u128::MAX);
    let large = small.plus(&Wide::new(1));
    assert!(small.at_most(&large));
    assert!(!large.at_most(&small));
    assert!(large.at_most(&large));
    assert_eq!(large.minus(&small), Wide::new(1));
}

#[test]
fn wide_shares_are_rounded_down() {
    let third = Wide::product(u128::MAX, u128::MAX);
    let whole = third.plus(&third).plus(&third);
    assert_eq!(Wide::share_of(100, &third, &whole), 33);
    assert_eq!(Wide::share_of(u128::MAX, &third, &whole), u128::MAX / 3);
    assert_eq!(Wide::share_of(u128::MAX, &whole, &whole), u128::MAX);
    assert_eq!(Wide::share_of(0, &third, &whole), 0);
    assert_eq!(Wide::share_of(7, &Wide::new(0), &whole), 0);
    assert_eq!(Wide::share_of(1_000, &Wide::new(3), &Wide::new(7)), 428);
}
